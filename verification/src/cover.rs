//! The second phase of the Quine-McCluskey method: the essential prime
//! implicants are selected, and the selection is written as an expression.

use crate::combination::{cleared_flags, has_states, implicant_of, implicants, is_prime, prime_list};
use crate::expression::{is_conjunction_of, Expression, Operand, Operator};
use crate::implicant::{contains_index, row_matches, QMStepRow, VariableState};
use crate::quine_mccluskey::ReduceError;
use vstd::prelude::*;

verus! {

/// `primes[p]` lists the table row `k` as covered, and no other of `primes` does.
pub open spec fn sole_cover(primes: Seq<QMStepRow>, p: int, k: usize) -> bool {
    &&& 0 <= p < primes.len()
    &&& primes[p].covered_rows@.contains(k)
    &&& forall|q: int|
        0 <= q < primes.len() && (#[trigger] primes[q]).covered_rows@.contains(k) ==> q == p
}

/// `primes[p]` is essential: some table row whose output is true is covered
/// by it and by no other of `primes`.
pub open spec fn essential(primes: Seq<QMStepRow>, outputs: Seq<bool>, p: int) -> bool {
    exists|k: usize| k < outputs.len() && outputs[k as int] && #[trigger] sole_cover(primes, p, k)
}

/// `primes[p]` alone covers some table row before row `bound` whose output is true.
pub open spec fn sole_before(primes: Seq<QMStepRow>, outputs: Seq<bool>, p: int, bound: int) -> bool {
    exists|m: usize| m < bound && outputs[m as int] && #[trigger] sole_cover(primes, p, m)
}

/// `copy` has the states, the count and the covered rows of `row`.
pub open spec fn same_row(copy: QMStepRow, row: QMStepRow) -> bool {
    &&& copy.row@ == row.row@
    &&& copy.true_count == row.true_count
    &&& copy.covered_rows@ == row.covered_rows@
}

/// One of `rows` lists the table row `k` as covered.
pub open spec fn covered_by_some(rows: Seq<QMStepRow>, k: usize) -> bool {
    exists|c: int| 0 <= c < rows.len() && (#[trigger] rows[c]).covered_rows@.contains(k)
}

/// `primes[p]` is selected before `primes[q]`: it alone covers a table row
/// whose output is true, and `primes[q]` alone covers no such row up to that one.
pub open spec fn earlier(primes: Seq<QMStepRow>, outputs: Seq<bool>, p: int, q: int) -> bool {
    exists|k: usize|
        k < outputs.len() && outputs[k as int] && #[trigger] sole_cover(primes, p, k) && forall|
            m: usize,
        |
            m <= k && outputs[m as int] ==> !#[trigger] sole_cover(primes, q, m)
}

/// `cover` holds a copy of each essential one of `primes`, `cover[c]` being
/// the copy of `primes[origin[c]]`, in the order of the first table row that
/// each alone covers.
pub open spec fn is_selection(
    cover: Seq<QMStepRow>,
    origin: Seq<int>,
    primes: Seq<QMStepRow>,
    outputs: Seq<bool>,
) -> bool {
    &&& origin.len() == cover.len()
    &&& forall|c: int|
        0 <= c < cover.len() ==> {
            &&& 0 <= #[trigger] origin[c] < primes.len()
            &&& same_row(cover[c], primes[origin[c]])
            &&& essential(primes, outputs, origin[c])
        }
    &&& forall|p: int|
        0 <= p < primes.len() && #[trigger] essential(primes, outputs, p) ==> origin.contains(p)
    &&& forall|c: int, d: int|
        0 <= c < d < cover.len() ==> earlier(
            primes,
            outputs,
            #[trigger] origin[c],
            #[trigger] origin[d],
        )
}

/// `cover` holds a copy of each essential one of `primes`, in the order of
/// the first table row that each alone covers.
pub open spec fn selects(cover: Seq<QMStepRow>, primes: Seq<QMStepRow>, outputs: Seq<bool>) -> bool {
    exists|origin: Seq<int>| is_selection(cover, origin, primes, outputs)
}

/// An implicant alone covers a row before the next bound iff it does so
/// before this bound or alone covers the row at this bound.
pub proof fn lemma_sole_before_step(
    primes: Seq<QMStepRow>,
    outputs: Seq<bool>,
    p: int,
    k: usize,
)
    requires
        k < usize::MAX,
    ensures
        sole_before(primes, outputs, p, k + 1) <==> sole_before(primes, outputs, p, k as int) || (
        outputs[k as int] && sole_cover(primes, p, k)),
{
    if sole_before(primes, outputs, p, k + 1) {
        let m = choose|m: usize| m < k + 1 && outputs[m as int] && #[trigger] sole_cover(primes, p, m);
        if m < k {
            assert(sole_before(primes, outputs, p, k as int));
        }
    }
    if sole_before(primes, outputs, p, k as int) {
        let m = choose|m: usize| m < k && outputs[m as int] && #[trigger] sole_cover(primes, p, m);
        assert(m < k + 1 && outputs[m as int] && sole_cover(primes, p, m));
    }
    if outputs[k as int] && sole_cover(primes, p, k) {
        assert(k < k + 1 && outputs[k as int] && sole_cover(primes, p, k));
    }
}

/// An essential one of `primes` lists the table row `k` as covered.
pub open spec fn essentially_covered(primes: Seq<QMStepRow>, outputs: Seq<bool>, k: usize) -> bool {
    exists|p: int|
        0 <= p < primes.len() && essential(primes, outputs, p) && (
        #[trigger] primes[p]).covered_rows@.contains(k)
}

/// The output of the table row `k` is true, and no essential one of `primes` covers the row.
pub open spec fn uncovered(primes: Seq<QMStepRow>, outputs: Seq<bool>, k: usize) -> bool {
    k < outputs.len() && outputs[k as int] && !essentially_covered(primes, outputs, k)
}

/// The literals of an implicant: among its first `count` states, one
/// positive literal for each that is `True`, in order. States that are
/// `False` or `Factored` leave no literal.
pub open spec fn true_literals(states: Seq<VariableState>, variables: Seq<i32>, count: nat) -> Seq<
    Operand,
>
    decreases count,
{
    if count == 0 {
        Seq::empty()
    } else {
        let before = true_literals(states, variables, (count - 1) as nat);
        if states[count - 1] == VariableState::True {
            before.push(Operand::Test(variables[count - 1]))
        } else {
            before
        }
    }
}

/// All literals of the implicant `row`.
pub open spec fn row_literals(row: QMStepRow, variables: Seq<i32>) -> Seq<Operand> {
    true_literals(row.row@, variables, row.row@.len())
}

/// `operand` stands for an implicant with the literals `literals` in a
/// disjunction: the literal itself where there is one, else their conjunction.
pub open spec fn is_implicant_operand(operand: Operand, literals: Seq<Operand>) -> bool {
    if literals.len() == 1 {
        operand == literals[0]
    } else {
        is_conjunction_of(operand, literals)
    }
}

/// `expression` is how the implicants `cover` are written: a disjunction with
/// one operand per implicant; but for a single implicant, its literals alone,
/// as a conjunction, or as a disjunction where it has one literal.
pub open spec fn is_cover_expression(
    expression: Expression,
    cover: Seq<QMStepRow>,
    variables: Seq<i32>,
) -> bool {
    if cover.len() == 1 {
        let literals = row_literals(cover[0], variables);
        &&& expression.operands@ == literals
        &&& if literals.len() == 1 {
            expression.operator is Or
        } else {
            expression.operator is And
        }
    } else {
        &&& expression.operator is Or
        &&& expression.operands@.len() == cover.len()
        &&& forall|c: int|
            0 <= c < cover.len() ==> is_implicant_operand(
                #[trigger] expression.operands@[c],
                row_literals(cover[c], variables),
            )
    }
}

/// Every variable whose state in `states` is `True` is true under `assignment`.
pub open spec fn implicant_holds(
    states: Seq<VariableState>,
    variables: Seq<i32>,
    assignment: spec_fn(i32) -> bool,
) -> bool {
    forall|j: int|
        0 <= j < states.len() && #[trigger] states[j] == VariableState::True ==> assignment(
            variables[j],
        )
}

/// For one of the implicants `cover`, every variable whose state is `True` is
/// true under `assignment`.
pub open spec fn cover_holds(
    cover: Seq<QMStepRow>,
    variables: Seq<i32>,
    assignment: spec_fn(i32) -> bool,
) -> bool {
    exists|c: int|
        0 <= c < cover.len() && implicant_holds((#[trigger] cover[c]).row@, variables, assignment)
}

/// Every one of `operands` is true under `assignment`.
pub open spec fn all_hold(operands: Seq<Operand>, assignment: spec_fn(i32) -> bool) -> bool {
    forall|i: int| 0 <= i < operands.len() ==> (#[trigger] operands[i]).holds(assignment)
}

/// `operand` is the literal of a variable among the first `count` whose state is `True`.
pub open spec fn is_true_literal(
    states: Seq<VariableState>,
    variables: Seq<i32>,
    count: nat,
    operand: Operand,
) -> bool {
    exists|j: int|
        0 <= j < count && #[trigger] states[j] == VariableState::True && operand == Operand::Test(
            variables[j],
        )
}

/// The literals of an implicant are the tests of its `True` states, and all
/// of them are true under an assignment iff each of those tests is.
pub proof fn lemma_true_literals(
    states: Seq<VariableState>,
    variables: Seq<i32>,
    count: nat,
    assignment: spec_fn(i32) -> bool,
)
    requires
        count <= states.len(),
    ensures
        forall|i: int|
            0 <= i < true_literals(states, variables, count).len() ==> is_true_literal(
                states,
                variables,
                count,
                #[trigger] true_literals(states, variables, count)[i],
            ),
        all_hold(true_literals(states, variables, count), assignment) <==> implicant_holds(
            states.take(count as int),
            variables,
            assignment,
        ),
    decreases count,
{
    let now = true_literals(states, variables, count);
    if count > 0 {
        let before = true_literals(states, variables, (count - 1) as nat);
        lemma_true_literals(states, variables, (count - 1) as nat, assignment);
        assert forall|i: int| 0 <= i < now.len() implies is_true_literal(
            states,
            variables,
            count,
            #[trigger] now[i],
        ) by {
            if i < before.len() {
                assert(is_true_literal(states, variables, (count - 1) as nat, before[i]));
                let j = choose|j: int|
                    0 <= j < count - 1 && #[trigger] states[j] == VariableState::True && before[i]
                        == Operand::Test(variables[j]);
                assert(states[j] == VariableState::True && now[i] == Operand::Test(variables[j]));
            } else {
                assert(states[count - 1] == VariableState::True && now[i] == Operand::Test(
                    variables[count - 1],
                ));
            }
        }
        let shorter = states.take(count - 1);
        let longer = states.take(count as int);
        if all_hold(now, assignment) {
            assert forall|i: int| 0 <= i < before.len() implies (#[trigger] before[i]).holds(
                assignment,
            ) by {
                assert(now[i] == before[i]);
            }
            assert forall|j: int|
                0 <= j < longer.len() && #[trigger] longer[j]
                    == VariableState::True implies assignment(variables[j]) by {
                if j < count - 1 {
                    assert(shorter[j] == VariableState::True);
                } else {
                    assert(now[before.len() as int].holds(assignment));
                }
            }
        }
        if implicant_holds(longer, variables, assignment) {
            assert forall|j: int|
                0 <= j < shorter.len() && #[trigger] shorter[j]
                    == VariableState::True implies assignment(variables[j]) by {
                assert(longer[j] == VariableState::True);
            }
            assert forall|i: int| 0 <= i < now.len() implies (#[trigger] now[i]).holds(
                assignment,
            ) by {
                if i < before.len() {
                    assert(now[i] == before[i]);
                } else {
                    assert(longer[count - 1] == VariableState::True);
                }
            }
        }
    }
}

/// The expression written for a non-empty cover is true under an assignment
/// iff, for one of its implicants, every variable whose state is `True` is
/// true under the assignment.
pub proof fn lemma_cover_expression(
    expression: Expression,
    cover: Seq<QMStepRow>,
    variables: Seq<i32>,
    assignment: spec_fn(i32) -> bool,
)
    requires
        cover.len() > 0,
        is_cover_expression(expression, cover, variables),
    ensures
        expression.holds(assignment) == cover_holds(cover, variables, assignment),
{
    assert forall|c: int| 0 <= c < cover.len() implies all_hold(
        row_literals(#[trigger] cover[c], variables),
        assignment,
    ) == implicant_holds(cover[c].row@, variables, assignment) by {
        lemma_true_literals(cover[c].row@, variables, cover[c].row@.len(), assignment);
        assert(cover[c].row@.take(cover[c].row@.len() as int) =~= cover[c].row@);
    }
    if cover.len() == 1 {
        let literals = row_literals(cover[0], variables);
        if literals.len() == 1 {
            assert(expression.holds(assignment) == literals[0].holds(assignment)) by {
                if expression.holds(assignment) {
                    let i = choose|i: int|
                        0 <= i < expression.operands@.len() && (
                        #[trigger] expression.operands@[i]).holds(assignment);
                    assert(i == 0);
                }
                if literals[0].holds(assignment) {
                    assert(expression.operands@[0].holds(assignment));
                }
            }
        }
        if cover_holds(cover, variables, assignment) {
            let c = choose|c: int|
                0 <= c < cover.len() && implicant_holds(
                    (#[trigger] cover[c]).row@,
                    variables,
                    assignment,
                );
            assert(c == 0);
        }
        if expression.holds(assignment) {
            assert(implicant_holds(cover[0].row@, variables, assignment));
        }
    } else {
        assert forall|c: int| 0 <= c < cover.len() implies (#[trigger] expression.operands@[c]).holds(
            assignment,
        ) == implicant_holds(cover[c].row@, variables, assignment) by {
            let literals = row_literals(cover[c], variables);
            let operand = expression.operands@[c];
            assert(is_implicant_operand(operand, literals));
            if literals.len() != 1 {
                match operand {
                    Operand::Expression(e) => {
                        assert(e.operands@ == literals);
                    },
                    _ => {},
                }
            }
        }
        if expression.holds(assignment) {
            let c = choose|c: int|
                0 <= c < expression.operands@.len() && (#[trigger] expression.operands@[c]).holds(
                    assignment,
                );
            assert(implicant_holds(cover[c].row@, variables, assignment));
        }
        if cover_holds(cover, variables, assignment) {
            let c = choose|c: int|
                0 <= c < cover.len() && implicant_holds(
                    (#[trigger] cover[c]).row@,
                    variables,
                    assignment,
                );
            assert(expression.operands@[c].holds(assignment));
        }
    }
}

/// The expression written for a cover has no negation, and every test in
/// it is the variable of a `True` state of one of the implicants.
pub proof fn lemma_cover_expression_literals(
    expression: Expression,
    cover: Seq<QMStepRow>,
    variables: Seq<i32>,
)
    requires
        cover.len() > 0,
        is_cover_expression(expression, cover, variables),
        forall|c: int| 0 <= c < cover.len() ==> (#[trigger] cover[c]).row@.len() <= variables.len(),
    ensures
        expression.positive(),
        forall|id: i32| #[trigger] expression.mentions(id) ==> variables.contains(id),
{
    let any = |id: i32| true;
    assert forall|c: int, i: int|
        0 <= c < cover.len() && 0 <= i < row_literals(cover[c], variables).len() implies {
        let literal = #[trigger] row_literals(cover[c], variables)[i];
        &&& literal.positive()
        &&& forall|id: i32| literal.mentions(id) ==> variables.contains(id)
    } by {
        lemma_true_literals(cover[c].row@, variables, cover[c].row@.len(), any);
        let literal = row_literals(cover[c], variables)[i];
        assert(is_true_literal(cover[c].row@, variables, cover[c].row@.len(), literal));
        let j = choose|j: int|
            0 <= j < cover[c].row@.len() && #[trigger] cover[c].row@[j] == VariableState::True
                && literal == Operand::Test(variables[j]);
        assert(variables.contains(variables[j]));
    }
    if cover.len() == 1 {
        let literals = row_literals(cover[0], variables);
        assert forall|i: int| 0 <= i < expression.operands@.len() implies (
        #[trigger] expression.operands@[i]).positive() by {
            assert(expression.operands@[i] == literals[i]);
        }
        assert forall|id: i32| #[trigger] expression.mentions(id) implies variables.contains(id) by {
            let i = choose|i: int|
                0 <= i < expression.operands@.len() && (#[trigger] expression.operands@[i]).mentions(
                    id,
                );
            assert(expression.operands@[i] == literals[i]);
        }
    } else {
        assert forall|c: int| 0 <= c < expression.operands@.len() implies {
            &&& (#[trigger] expression.operands@[c]).positive()
            &&& forall|id: i32| expression.operands@[c].mentions(id) ==> variables.contains(id)
        } by {
            let literals = row_literals(cover[c], variables);
            let operand = expression.operands@[c];
            assert(is_implicant_operand(operand, literals));
            if literals.len() == 1 {
                assert(operand == literals[0]);
            } else {
                match operand {
                    Operand::Expression(e) => {
                        assert(e.operands@ == literals);
                        assert forall|i: int| 0 <= i < e.operands@.len() implies (
                        #[trigger] e.operands@[i]).positive() by {
                            assert(e.operands@[i] == literals[i]);
                        }
                        assert forall|id: i32| e.mentions(id) implies variables.contains(id) by {
                            let i = choose|i: int|
                                0 <= i < e.operands@.len() && (#[trigger] e.operands@[i]).mentions(
                                    id,
                                );
                            assert(e.operands@[i] == literals[i]);
                        }
                    },
                    _ => {},
                }
            }
        }
        assert forall|id: i32| #[trigger] expression.mentions(id) implies variables.contains(id) by {
            let c = choose|c: int|
                0 <= c < expression.operands@.len() && (#[trigger] expression.operands@[c]).mentions(
                    id,
                );
        }
    }
}

/// `states` is an essential prime implicant of the function whose truth
/// table has the output column `outputs`: a prime implicant that agrees with
/// some table row with which no other prime implicant agrees.
pub open spec fn is_essential(states: Seq<VariableState>, outputs: Seq<bool>) -> bool {
    &&& is_prime(states, outputs)
    &&& exists|k: int|
        0 <= k < outputs.len() && #[trigger] row_matches(states, k) && sole_prime(
            states,
            outputs,
            k,
        )
}

/// No prime implicant but `states` agrees with the table row `k`.
pub open spec fn sole_prime(states: Seq<VariableState>, outputs: Seq<bool>, k: int) -> bool {
    forall|other: Seq<VariableState>|
        other.len() == states.len() && #[trigger] is_prime(other, outputs) && row_matches(other, k)
            ==> other == states
}

/// The output of the table row `k` is true, and no essential prime implicant
/// over `variable_count` variables agrees with the row.
pub open spec fn lacks_essential(outputs: Seq<bool>, variable_count: nat, k: int) -> bool {
    &&& 0 <= k < outputs.len()
    &&& outputs[k]
    &&& forall|states: Seq<VariableState>|
        states.len() == variable_count && #[trigger] is_essential(states, outputs) ==> !row_matches(
            states,
            k,
        )
}

/// The essential prime implicant `first` comes before `second`: it alone
/// agrees with a table row up to which `second` alone agrees with none.
pub open spec fn comes_before(
    first: Seq<VariableState>,
    second: Seq<VariableState>,
    outputs: Seq<bool>,
) -> bool {
    exists|k: int|
        0 <= k < outputs.len() && #[trigger] row_matches(first, k) && sole_prime(first, outputs, k)
            && forall|m: int|
            0 <= m <= k && #[trigger] row_matches(second, m) ==> !sole_prime(second, outputs, m)
}

/// `cover` holds the essential prime implicants, each once and each with
/// the table rows that agree with it, in the order of the first table row
/// with which each alone agrees.
pub open spec fn is_essential_cover(
    cover: Seq<QMStepRow>,
    outputs: Seq<bool>,
    variable_count: nat,
) -> bool {
    &&& implicants(cover, outputs, variable_count)
    &&& forall|c: int| 0 <= c < cover.len() ==> is_essential((#[trigger] cover[c]).row@, outputs)
    &&& forall|c: int, d: int|
        0 <= c < d < cover.len() ==> comes_before(
            (#[trigger] cover[c]).row@,
            (#[trigger] cover[d]).row@,
            outputs,
        )
    &&& forall|states: Seq<VariableState>|
        states.len() == variable_count && #[trigger] is_essential(states, outputs) ==> has_states(
            cover,
            states,
        )
}

/// `primes` holds every prime implicant over `variable_count` variables.
pub open spec fn all_primes(primes: Seq<QMStepRow>, outputs: Seq<bool>, variable_count: nat) -> bool {
    &&& prime_list(primes, outputs, variable_count)
    &&& forall|states: Seq<VariableState>|
        states.len() == variable_count && #[trigger] is_prime(states, outputs) ==> has_states(
            primes,
            states,
        )
}

/// In the list of all prime implicants, an implicant lists a table row as
/// covered iff it agrees with the row.
pub proof fn lemma_covered_is_matched(
    primes: Seq<QMStepRow>,
    outputs: Seq<bool>,
    variable_count: nat,
    p: int,
    k: usize,
)
    requires
        all_primes(primes, outputs, variable_count),
        0 <= p < primes.len(),
        k < outputs.len(),
    ensures
        primes[p].covered_rows@.contains(k) <==> row_matches(primes[p].row@, k as int),
{
    assert(implicant_of(primes[p], outputs, variable_count));
    if primes[p].covered_rows@.contains(k) {
        let i = choose|i: int|
            0 <= i < primes[p].covered_rows@.len() && primes[p].covered_rows@[i] == k;
        assert(row_matches(primes[p].row@, primes[p].covered_rows@[i] as int));
    }
}

/// In the list of all prime implicants, an implicant alone covers a table
/// row iff it agrees with the row and no other prime implicant does.
pub proof fn lemma_sole_meaning(
    primes: Seq<QMStepRow>,
    outputs: Seq<bool>,
    variable_count: nat,
    p: int,
    k: usize,
)
    requires
        all_primes(primes, outputs, variable_count),
        0 <= p < primes.len(),
        k < outputs.len(),
    ensures
        sole_cover(primes, p, k) <==> row_matches(primes[p].row@, k as int) && sole_prime(
            primes[p].row@,
            outputs,
            k as int,
        ),
{
    let states = primes[p].row@;
    assert(implicant_of(primes[p], outputs, variable_count));
    lemma_covered_is_matched(primes, outputs, variable_count, p, k);
    if sole_cover(primes, p, k) {
        assert forall|other: Seq<VariableState>|
            other.len() == states.len() && #[trigger] is_prime(other, outputs) && row_matches(
                other,
                k as int,
            ) implies other == states by {
            assert(has_states(primes, other));
            let q = choose|q: int| 0 <= q < primes.len() && (#[trigger] primes[q]).row@ == other;
            lemma_covered_is_matched(primes, outputs, variable_count, q, k);
        }
    }
    if row_matches(states, k as int) && sole_prime(states, outputs, k as int) {
        assert forall|q: int|
            0 <= q < primes.len() && (#[trigger] primes[q]).covered_rows@.contains(
                k,
            ) implies q == p by {
            lemma_covered_is_matched(primes, outputs, variable_count, q, k);
            assert(implicant_of(primes[q], outputs, variable_count));
            assert(is_prime(primes[q].row@, outputs));
            assert(primes[q].row@ == states);
            if q < p {
                assert(primes[q].row@ != primes[p].row@);
            } else if p < q {
                assert(primes[p].row@ != primes[q].row@);
            }
        }
    }
}

/// In the list of all prime implicants, the implicants selected as
/// essential are the essential prime implicants.
pub proof fn lemma_essential_meaning(
    primes: Seq<QMStepRow>,
    outputs: Seq<bool>,
    variable_count: nat,
    p: int,
)
    requires
        all_primes(primes, outputs, variable_count),
        outputs.len() <= usize::MAX,
        0 <= p < primes.len(),
    ensures
        essential(primes, outputs, p) <==> is_essential(primes[p].row@, outputs),
{
    let states = primes[p].row@;
    assert(implicant_of(primes[p], outputs, variable_count));
    if essential(primes, outputs, p) {
        let k = choose|k: usize|
            k < outputs.len() && outputs[k as int] && #[trigger] sole_cover(primes, p, k);
        lemma_sole_meaning(primes, outputs, variable_count, p, k);
    }
    if is_essential(states, outputs) {
        let k = choose|k: int|
            0 <= k < outputs.len() && #[trigger] row_matches(states, k) && sole_prime(
                states,
                outputs,
                k,
            );
        let row = k as usize;
        lemma_sole_meaning(primes, outputs, variable_count, p, row);
        assert(row < outputs.len() && outputs[row as int] && sole_cover(primes, p, row));
    }
}

/// A selection made from the list of all prime implicants holds the
/// essential prime implicants, each once, in the order of the first table
/// row with which each alone agrees.
pub proof fn lemma_selection_is_essential_cover(
    cover: Seq<QMStepRow>,
    primes: Seq<QMStepRow>,
    outputs: Seq<bool>,
    variable_count: nat,
)
    requires
        all_primes(primes, outputs, variable_count),
        outputs.len() <= usize::MAX,
        selects(cover, primes, outputs),
    ensures
        is_essential_cover(cover, outputs, variable_count),
{
    let origin = choose|origin: Seq<int>| is_selection(cover, origin, primes, outputs);
    assert forall|c: int| 0 <= c < cover.len() implies implicant_of(
        #[trigger] cover[c],
        outputs,
        variable_count,
    ) && is_essential(cover[c].row@, outputs) by {
        let p = origin[c];
        assert(same_row(cover[c], primes[p]));
        assert(implicant_of(primes[p], outputs, variable_count));
        lemma_essential_meaning(primes, outputs, variable_count, p);
    }
    assert forall|c: int, d: int| 0 <= c < d < cover.len() implies comes_before(
        (#[trigger] cover[c]).row@,
        (#[trigger] cover[d]).row@,
        outputs,
    ) by {
        let p = origin[c];
        let q = origin[d];
        assert(same_row(cover[c], primes[p]) && same_row(cover[d], primes[q]));
        assert(earlier(primes, outputs, p, q));
        let k = choose|k: usize|
            k < outputs.len() && outputs[k as int] && #[trigger] sole_cover(primes, p, k) && forall|
                m: usize,
            |
                m <= k && outputs[m as int] ==> !#[trigger] sole_cover(primes, q, m);
        lemma_sole_meaning(primes, outputs, variable_count, p, k);
        assert(implicant_of(primes[q], outputs, variable_count));
        assert forall|m: int| 0 <= m <= k && #[trigger] row_matches(primes[q].row@, m) implies !sole_prime(
            primes[q].row@,
            outputs,
            m,
        ) by {
            if sole_prime(primes[q].row@, outputs, m) {
                lemma_sole_meaning(primes, outputs, variable_count, q, m as usize);
                assert(outputs[m]);
                assert(sole_cover(primes, q, m as usize));
            }
        }
        assert(row_matches(primes[p].row@, k as int) && sole_prime(primes[p].row@, outputs, k as int));
    }
    assert forall|states: Seq<VariableState>|
        states.len() == variable_count && #[trigger] is_essential(states, outputs) implies has_states(
        cover,
        states,
    ) by {
        assert(is_prime(states, outputs));
        assert(has_states(primes, states));
        let p = choose|p: int| 0 <= p < primes.len() && (#[trigger] primes[p]).row@ == states;
        lemma_essential_meaning(primes, outputs, variable_count, p);
        assert(origin.contains(p));
        let c = choose|c: int| 0 <= c < origin.len() && origin[c] == p;
        assert(same_row(cover[c], primes[origin[c]]));
        assert(cover[c].row@ == states);
    }
}

/// No cover is smaller than the selection: every list of prime implicants
/// that agrees with each table row whose output is true holds every
/// essential prime implicant.
pub proof fn lemma_essential_in_every_cover(
    states: Seq<VariableState>,
    outputs: Seq<bool>,
    others: Seq<Seq<VariableState>>,
)
    requires
        is_essential(states, outputs),
        forall|i: int|
            0 <= i < others.len() ==> (#[trigger] others[i]).len() == states.len() && is_prime(
                others[i],
                outputs,
            ),
        forall|k: int|
            0 <= k < outputs.len() && #[trigger] outputs[k] ==> exists|i: int|
                0 <= i < others.len() && row_matches(#[trigger] others[i], k),
    ensures
        others.contains(states),
{
    let k = choose|k: int|
        0 <= k < outputs.len() && #[trigger] row_matches(states, k) && sole_prime(
            states,
            outputs,
            k,
        );
    assert(outputs[k]);
    let i = choose|i: int| 0 <= i < others.len() && row_matches(#[trigger] others[i], k);
    assert(is_prime(others[i], outputs));
    assert(others[i] == states);
}

/// A selection that leaves no table row uncovered covers every row whose
/// output is true.
pub proof fn lemma_selection_covers(
    cover: Seq<QMStepRow>,
    primes: Seq<QMStepRow>,
    outputs: Seq<bool>,
    k: usize,
)
    requires
        selects(cover, primes, outputs),
        k < outputs.len(),
        outputs[k as int],
        !uncovered(primes, outputs, k),
    ensures
        covered_by_some(cover, k),
{
    let origin = choose|origin: Seq<int>| is_selection(cover, origin, primes, outputs);
    let p = choose|p: int|
        0 <= p < primes.len() && essential(primes, outputs, p) && (
        #[trigger] primes[p]).covered_rows@.contains(k);
    assert(origin.contains(p));
    let c = choose|c: int| 0 <= c < origin.len() && origin[c] == p;
    assert(same_row(cover[c], primes[origin[c]]));
    assert(cover[c].covered_rows@.contains(k));
}

/// In the list of all prime implicants, a table row is left uncovered by
/// the selection iff no essential prime implicant agrees with it.
pub proof fn lemma_uncovered_meaning(
    primes: Seq<QMStepRow>,
    outputs: Seq<bool>,
    variable_count: nat,
    k: usize,
)
    requires
        all_primes(primes, outputs, variable_count),
        outputs.len() <= usize::MAX,
    ensures
        uncovered(primes, outputs, k) <==> lacks_essential(outputs, variable_count, k as int),
{
    if k < outputs.len() && outputs[k as int] {
        if essentially_covered(primes, outputs, k) {
            let p = choose|p: int|
                0 <= p < primes.len() && essential(primes, outputs, p) && (
                #[trigger] primes[p]).covered_rows@.contains(k);
            lemma_essential_meaning(primes, outputs, variable_count, p);
            lemma_covered_is_matched(primes, outputs, variable_count, p, k);
            assert(implicant_of(primes[p], outputs, variable_count));
            assert(is_essential(primes[p].row@, outputs) && row_matches(primes[p].row@, k as int));
        }
        if !lacks_essential(outputs, variable_count, k as int) {
            let states = choose|states: Seq<VariableState>|
                states.len() == variable_count && #[trigger] is_essential(states, outputs)
                    && row_matches(states, k as int);
            assert(is_prime(states, outputs));
            assert(has_states(primes, states));
            let p = choose|p: int| 0 <= p < primes.len() && (#[trigger] primes[p]).row@ == states;
            lemma_essential_meaning(primes, outputs, variable_count, p);
            lemma_covered_is_matched(primes, outputs, variable_count, p, k);
            assert(essentially_covered(primes, outputs, k));
        }
    }
}

/// The one of `primes` that alone lists the table row `k` as covered, if there is one.
pub fn sole_covering(primes: &Vec<QMStepRow>, k: usize) -> (sole: Option<usize>)
    ensures
        sole matches Some(p) ==> sole_cover(primes@, p as int, k),
        sole is None ==> forall|p: int| !sole_cover(primes@, p, k),
{
    let mut coverage: usize = 0;
    let mut index: usize = 0;
    let mut i: usize = 0;
    while i < primes.len()
        invariant
            i <= primes@.len(),
            coverage <= i,
            coverage == 0 ==> forall|q: int|
                0 <= q < i ==> !(#[trigger] primes@[q]).covered_rows@.contains(k),
            coverage == 1 ==> index < i && primes@[index as int].covered_rows@.contains(k)
                && forall|q: int|
                0 <= q < i && (#[trigger] primes@[q]).covered_rows@.contains(k) ==> q == index,
            coverage >= 2 ==> exists|q: int, r: int|
                0 <= q < r < i && (#[trigger] primes@[q]).covered_rows@.contains(k) && (
                #[trigger] primes@[r]).covered_rows@.contains(k),
        decreases primes@.len() - i,
    {
        if contains_index(&primes[i].covered_rows, k) {
            proof {
                if coverage == 1 {
                    assert(primes@[index as int].covered_rows@.contains(k)
                        && primes@[i as int].covered_rows@.contains(k));
                }
            }
            coverage += 1;
            index = i;
        }
        i += 1;
    }
    if coverage == 1 {
        Some(index)
    } else {
        proof {
            assert forall|p: int| !sole_cover(primes@, p, k) by {
                if sole_cover(primes@, p, k) {
                    if coverage >= 2 {
                        let (q, r) = choose|q: int, r: int|
                            0 <= q < r < primes@.len() && (
                            #[trigger] primes@[q]).covered_rows@.contains(k) && (
                            #[trigger] primes@[r]).covered_rows@.contains(k);
                        assert(q == p && r == p);
                    }
                }
            }
        }
        None
    }
}

/// Sets the flag of each of `rows`, as far as it has one.
pub fn mark_rows(rows: &Vec<usize>, flags: &mut Vec<bool>)
    ensures
        final(flags)@.len() == old(flags)@.len(),
        forall|r: int|
            0 <= r < old(flags)@.len() ==> #[trigger] final(flags)@[r] == (old(flags)@[r]
                || rows@.contains(r as usize)),
{
    let ghost start = flags@;
    let mut i: usize = 0;
    while i < rows.len()
        invariant
            i <= rows@.len(),
            flags@.len() == start.len(),
            forall|r: int|
                0 <= r < start.len() ==> #[trigger] flags@[r] == (start[r] || exists|m: int|
                    0 <= m < i && rows@[m] == r as usize),
        decreases rows@.len() - i,
    {
        let k = rows[i];
        let ghost before = flags@;
        if k < flags.len() {
            flags[k] = true;
        }
        proof {
            assert forall|r: int| 0 <= r < start.len() implies #[trigger] flags@[r] == (start[r]
                || exists|m: int| 0 <= m < i + 1 && rows@[m] == r as usize) by {
                if r == k {
                    assert(rows@[i as int] == r as usize);
                } else {
                    assert(flags@[r] == before[r]);
                    if exists|m: int| 0 <= m < i + 1 && rows@[m] == r as usize {
                        let m = choose|m: int| 0 <= m < i + 1 && rows@[m] == r as usize;
                        assert(m < i);
                    }
                }
            }
        }
        i += 1;
    }
    proof {
        assert forall|r: int| 0 <= r < start.len() implies #[trigger] flags@[r] == (start[r]
            || rows@.contains(r as usize)) by {
            if rows@.contains(r as usize) {
                let m = choose|m: int| 0 <= m < rows@.len() && rows@[m] == r as usize;
                assert(0 <= m < rows@.len() && rows@[m] == r as usize);
            }
        }
    }
}

/// Selects the essential prime implicants: the table rows whose output is
/// true are gone through in order, and where one of `primes` alone covers a
/// row, a copy of it is selected, unless it was selected before.
///
/// Fails where the selection leaves uncovered a table row whose output is
/// true: to choose among the implicants that are not essential is not supported.
pub fn essential_cover(primes: &Vec<QMStepRow>, outputs: &Vec<bool>) -> (selected: Result<
    Vec<QMStepRow>,
    ReduceError,
>)
    ensures
        selected is Err <==> exists|k: usize| uncovered(primes@, outputs@, k),
        selected matches Err(e) ==> e == ReduceError::UncoveredMinterms,
        selected matches Ok(cover) ==> selects(cover@, primes@, outputs@),
{
    let mut chosen = cleared_flags(primes.len());
    let mut satisfied = cleared_flags(outputs.len());
    let mut cover = Vec::<QMStepRow>::new();
    let ghost mut origin: Seq<int> = Seq::empty();
    let mut k: usize = 0;
    while k < outputs.len()
        invariant
            k <= outputs@.len(),
            chosen@.len() == primes@.len(),
            satisfied@.len() == outputs@.len(),
            origin.len() == cover@.len(),
            forall|c: int|
                0 <= c < cover@.len() ==> 0 <= #[trigger] origin[c] < primes@.len() && same_row(
                    cover@[c],
                    primes@[origin[c]],
                ),
            forall|p: int|
                0 <= p < primes@.len() ==> (#[trigger] chosen@[p] <==> sole_before(
                    primes@,
                    outputs@,
                    p,
                    k as int,
                )),
            forall|p: int| 0 <= p < primes@.len() ==> (#[trigger] chosen@[p] <==> origin.contains(p)),
            forall|c: int, d: int|
                0 <= c < d < cover@.len() ==> earlier(
                    primes@,
                    outputs@,
                    #[trigger] origin[c],
                    #[trigger] origin[d],
                ),
            forall|r: int|
                0 <= r < outputs@.len() ==> (#[trigger] satisfied@[r] <==> covered_by_some(
                    cover@,
                    r as usize,
                )),
        decreases outputs@.len() - k,
    {
        let ghost chosen_before = chosen@;
        let ghost origin_before = origin;
        let ghost cover_before = cover@;
        let ghost satisfied_before = satisfied@;
        let mut found: Option<usize> = None;
        if outputs[k] {
            found = sole_covering(primes, k);
            match found {
                Some(p) => {
                    if !chosen[p] {
                        let row = primes[p].duplicate();
                        mark_rows(&row.covered_rows, &mut satisfied);
                        cover.push(row);
                        chosen[p] = true;
                        proof {
                            origin = origin.push(p as int);
                            assert(origin[cover_before.len() as int] == p);
                            assert forall|c: int, d: int|
                                0 <= c < d < cover@.len() implies earlier(
                                primes@,
                                outputs@,
                                #[trigger] origin[c],
                                #[trigger] origin[d],
                            ) by {
                                if d < cover_before.len() {
                                    assert(origin[c] == origin_before[c] && origin[d]
                                        == origin_before[d]);
                                } else {
                                    let q = origin_before[c];
                                    assert(origin[c] == q);
                                    assert(origin_before.contains(q));
                                    assert(chosen_before[q]);
                                    assert(sole_before(primes@, outputs@, q, k as int));
                                    let m = choose|m: usize|
                                        m < k && outputs@[m as int] && #[trigger] sole_cover(
                                            primes@,
                                            q,
                                            m,
                                        );
                                    assert forall|w: usize|
                                        w <= m && outputs@[w as int] implies !#[trigger] sole_cover(
                                        primes@,
                                        p as int,
                                        w,
                                    ) by {
                                        if sole_cover(primes@, p as int, w) {
                                            assert(sole_before(
                                                primes@,
                                                outputs@,
                                                p as int,
                                                k as int,
                                            ));
                                        }
                                    }
                                }
                            }
                            assert forall|q: int| 0 <= q < primes@.len() implies (
                            #[trigger] chosen@[q] <==> origin.contains(q)) by {
                                if q == p {
                                    assert(origin[cover_before.len() as int] == q);
                                } else {
                                    assert(chosen@[q] == chosen_before[q]);
                                    if origin_before.contains(q) {
                                        let c = choose|c: int|
                                            0 <= c < origin_before.len() && origin_before[c] == q;
                                        assert(origin[c] == q);
                                    }
                                    if origin.contains(q) {
                                        let c = choose|c: int|
                                            0 <= c < origin.len() && origin[c] == q;
                                        assert(origin_before[c] == q);
                                    }
                                }
                            }
                            assert forall|r: int| 0 <= r < outputs@.len() implies (
                            #[trigger] satisfied@[r] <==> covered_by_some(cover@, r as usize)) by {
                                if covered_by_some(cover_before, r as usize) {
                                    let c = choose|c: int|
                                        0 <= c < cover_before.len() && (
                                        #[trigger] cover_before[c]).covered_rows@.contains(
                                            r as usize,
                                        );
                                    assert(cover@[c] == cover_before[c]);
                                }
                                if row.covered_rows@.contains(r as usize) {
                                    assert(cover@[cover_before.len() as int] == row);
                                }
                                if covered_by_some(cover@, r as usize) {
                                    let c = choose|c: int|
                                        0 <= c < cover@.len() && (
                                        #[trigger] cover@[c]).covered_rows@.contains(r as usize);
                                    if c < cover_before.len() {
                                        assert(cover@[c] == cover_before[c]);
                                    }
                                }
                            }
                        }
                    }
                },
                None => {},
            }
        }
        proof {
            assert forall|p: int| 0 <= p < primes@.len() implies (#[trigger] chosen@[p]
                <==> sole_before(primes@, outputs@, p, k + 1)) by {
                lemma_sole_before_step(primes@, outputs@, p, k);
                match found {
                    Some(q) => {
                        assert(outputs@[k as int] && sole_cover(primes@, q as int, k));
                        if q != p {
                            assert(chosen@[p] == chosen_before[p]);
                        }
                    },
                    None => {
                        assert(chosen@[p] == chosen_before[p]);
                    },
                }
            }
        }
        k += 1;
    }
    proof {
        assert forall|p: int| 0 <= p < primes@.len() implies (#[trigger] essential(
            primes@,
            outputs@,
            p,
        ) <==> origin.contains(p)) by {
            assert(chosen@[p] <==> sole_before(primes@, outputs@, p, outputs@.len() as int));
            if essential(primes@, outputs@, p) {
                let m = choose|m: usize|
                    m < outputs@.len() && outputs@[m as int] && #[trigger] sole_cover(primes@, p, m);
                assert(sole_before(primes@, outputs@, p, outputs@.len() as int));
            }
        }
        assert forall|c: int| 0 <= c < cover@.len() implies essential(
            primes@,
            outputs@,
            #[trigger] origin[c],
        ) by {
            assert(origin.contains(origin[c]));
        }
        assert(is_selection(cover@, origin, primes@, outputs@));
        assert forall|r: int| 0 <= r < outputs@.len() implies (#[trigger] satisfied@[r]
            <==> essentially_covered(primes@, outputs@, r as usize)) by {
            if covered_by_some(cover@, r as usize) {
                let c = choose|c: int|
                    0 <= c < cover@.len() && (#[trigger] cover@[c]).covered_rows@.contains(
                        r as usize,
                    );
                assert(same_row(cover@[c], primes@[origin[c]]));
                assert(essential(primes@, outputs@, origin[c]));
            }
            if essentially_covered(primes@, outputs@, r as usize) {
                let p = choose|p: int|
                    0 <= p < primes@.len() && essential(primes@, outputs@, p) && (
                    #[trigger] primes@[p]).covered_rows@.contains(r as usize);
                assert(origin.contains(p));
                let c = choose|c: int| 0 <= c < origin.len() && origin[c] == p;
                assert(same_row(cover@[c], primes@[origin[c]]));
                assert(cover@[c].covered_rows@.contains(r as usize));
            }
        }
    }
    let mut r: usize = 0;
    while r < outputs.len()
        invariant
            r <= outputs@.len(),
            satisfied@.len() == outputs@.len(),
            forall|w: int|
                0 <= w < outputs@.len() ==> (#[trigger] satisfied@[w] <==> essentially_covered(
                    primes@,
                    outputs@,
                    w as usize,
                )),
            forall|w: usize| w < r ==> !uncovered(primes@, outputs@, w),
        decreases outputs@.len() - r,
    {
        if outputs[r] && !satisfied[r] {
            assert(uncovered(primes@, outputs@, r));
            return Err(ReduceError::UncoveredMinterms);
        }
        r += 1;
    }
    Ok(cover)
}

/// The literals of an implicant: one positive literal for each variable
/// whose state is `True`.
pub fn literal_operands(states: &Vec<VariableState>, index_to_variable: &Vec<i32>) -> (literals:
    Vec<Operand>)
    requires
        states@.len() <= index_to_variable@.len(),
    ensures
        literals@ == true_literals(states@, index_to_variable@, states@.len()),
{
    let mut literals = Vec::<Operand>::new();
    let mut i: usize = 0;
    while i < states.len()
        invariant
            i <= states@.len() <= index_to_variable@.len(),
            literals@ == true_literals(states@, index_to_variable@, i as nat),
        decreases states@.len() - i,
    {
        if states[i] == VariableState::True {
            literals.push(Operand::Test(index_to_variable[i]));
        }
        i += 1;
    }
    literals
}

/// Writes a selection of implicants as an expression over the tests
/// `index_to_variable`, variable `j` of an implicant being the test
/// `index_to_variable[j]`.
///
/// An empty selection gives `None`. A single implicant is written as the
/// conjunction of its literals, or as a disjunction of its one literal.
/// Several are written as a disjunction with one operand per implicant: its
/// literal where it has one, else the conjunction of its literals.
pub fn implicants_expression(cover: &Vec<QMStepRow>, index_to_variable: &Vec<i32>) -> (written:
    Option<Expression>)
    requires
        forall|c: int|
            0 <= c < cover@.len() ==> (#[trigger] cover@[c]).row@.len() <= index_to_variable@.len(),
    ensures
        written is None <==> cover@.len() == 0,
        written matches Some(expression) ==> is_cover_expression(
            expression,
            cover@,
            index_to_variable@,
        ),
{
    let count = cover.len();
    if count == 0 {
        return None;
    }
    if count == 1 {
        let operands = literal_operands(&cover[0].row, index_to_variable);
        let operator = if operands.len() == 1 {
            Operator::Or
        } else {
            Operator::And
        };
        return Some(Expression { operator, operands });
    }
    let mut root_operands = Vec::<Operand>::new();
    let mut c: usize = 0;
    while c < count
        invariant
            c <= count,
            count == cover@.len(),
            root_operands@.len() == c,
            forall|k: int|
                0 <= k < cover@.len() ==> (#[trigger] cover@[k]).row@.len()
                    <= index_to_variable@.len(),
            forall|k: int|
                0 <= k < c ==> is_implicant_operand(
                    #[trigger] root_operands@[k],
                    row_literals(cover@[k], index_to_variable@),
                ),
        decreases count - c,
    {
        let mut operands = literal_operands(&cover[c].row, index_to_variable);
        if operands.len() == 1 {
            let literal = operands.remove(0);
            root_operands.push(literal);
        } else {
            root_operands.push(
                Operand::Expression(Expression { operator: Operator::And, operands }),
            );
        }
        c += 1;
    }
    Some(Expression { operator: Operator::Or, operands: root_operands })
}

} // verus!
