//! Monotone functions: the essential prime implicants of a function that
//! stays true when more of its variables are true cover its truth table.

use crate::bits::{bit, encode, lemma_encode, pow2};
use crate::combination::{is_implicant, is_prime, row_states};
use crate::cover::{is_essential, lacks_essential, sole_prime};
use crate::expression::{below, monotone, Expression};
use crate::implicant::{count_of, lemma_count_bound, lemma_count_update, row_matches, VariableState};
use crate::quine_mccluskey::{essentials_fall_short, row_assignment, truth_outputs};
use vstd::prelude::*;

verus! {

/// Every bit among the first `variable_count` that is set in `lower` is set in `upper`.
pub open spec fn bits_within(lower: int, upper: int, variable_count: nat) -> bool {
    forall|j: int| 0 <= j < variable_count && #[trigger] bit(lower, j) ==> bit(upper, j)
}

/// The output column `outputs` of a truth table over `variable_count`
/// variables is monotone: a row whose inputs include all the true inputs of a
/// row with the output true has the output true.
pub open spec fn monotone_outputs(outputs: Seq<bool>, variable_count: nat) -> bool {
    &&& outputs.len() == pow2(variable_count)
    &&& forall|lower: int, upper: int|
        0 <= lower < outputs.len() && 0 <= upper < outputs.len() && outputs[lower]
            && #[trigger] bits_within(lower, upper, variable_count) ==> outputs[upper]
}

/// No state of `states` is `False`.
pub open spec fn without_false(states: Seq<VariableState>) -> bool {
    forall|j: int| 0 <= j < states.len() ==> #[trigger] states[j] != VariableState::False
}

/// The truth table of a monotone expression is monotone.
pub proof fn lemma_monotone_table(expression: Expression)
    requires
        monotone(expression),
    ensures
        monotone_outputs(truth_outputs(expression), expression.variable_seq().len()),
{
    let variables = expression.variable_seq();
    let outputs = truth_outputs(expression);
    assert forall|lower: int, upper: int|
        0 <= lower < outputs.len() && 0 <= upper < outputs.len() && outputs[lower]
            && #[trigger] bits_within(lower, upper, variables.len()) implies outputs[upper] by {
        let first = row_assignment(variables, lower);
        let second = row_assignment(variables, upper);
        assert forall|id: i32| #[trigger] first(id) implies second(id) by {
            let j = choose|j: int|
                0 <= j < variables.len() && #[trigger] variables[j] == id && bit(lower, j);
            assert(bit(upper, j));
        }
        assert(below(first, second));
        assert(expression.holds(first));
    }
}

/// A prime implicant of a monotone function has no state `False`.
pub proof fn lemma_prime_without_false(states: Seq<VariableState>, outputs: Seq<bool>)
    requires
        monotone_outputs(outputs, states.len()),
        is_prime(states, outputs),
    ensures
        without_false(states),
{
    let n = states.len();
    assert forall|p: int| 0 <= p < n implies #[trigger] states[p] != VariableState::False by {
        if states[p] == VariableState::False {
            let wider = states.update(p, VariableState::Factored);
            assert forall|k: int| 0 <= k < outputs.len() && #[trigger] row_matches(
                wider,
                k,
            ) implies outputs[k] by {
                let pattern = Seq::new(n, |j: int| j != p && bit(k, j));
                lemma_encode(pattern);
                let cleared = encode(pattern);
                assert forall|j: int| 0 <= j < n implies match #[trigger] states[j] {
                    VariableState::True => bit(cleared, j),
                    VariableState::False => !bit(cleared, j),
                    VariableState::Factored => true,
                } by {
                    assert(bit(cleared, j) == pattern[j]);
                    if j != p {
                        assert(wider[j] == states[j]);
                    }
                }
                assert(row_matches(states, cleared));
                assert forall|j: int| 0 <= j < n && #[trigger] bit(cleared, j) implies bit(k, j) by {
                    assert(bit(cleared, j) == pattern[j]);
                }
                assert(bits_within(cleared, k, n));
            }
            assert(is_implicant(wider, outputs));
        }
    }
}

/// Every implicant can be widened to a prime implicant: one that agrees
/// with every table row with which the implicant agrees.
pub proof fn lemma_widen_to_prime(states: Seq<VariableState>, outputs: Seq<bool>) -> (prime: Seq<
    VariableState,
>)
    requires
        is_implicant(states, outputs),
    ensures
        prime.len() == states.len(),
        is_prime(prime, outputs),
        forall|k: int| row_matches(states, k) ==> row_matches(prime, k),
    decreases states.len() - count_of(states, VariableState::Factored),
{
    if is_prime(states, outputs) {
        states
    } else {
        let p = choose|p: int|
            0 <= p < states.len() && states[p] != VariableState::Factored && is_implicant(
                #[trigger] states.update(p, VariableState::Factored),
                outputs,
            );
        let wider = states.update(p, VariableState::Factored);
        lemma_count_update(states, p, VariableState::Factored, VariableState::Factored);
        lemma_count_bound(wider, VariableState::Factored);
        let prime = lemma_widen_to_prime(wider, outputs);
        assert forall|k: int| row_matches(states, k) implies row_matches(prime, k) by {
            assert forall|j: int| 0 <= j < wider.len() implies match #[trigger] wider[j] {
                VariableState::True => bit(k, j),
                VariableState::False => !bit(k, j),
                VariableState::Factored => true,
            } by {
                if j != p {
                    assert(states[j] == wider[j]);
                }
            }
            assert(row_matches(wider, k));
        }
        prime
    }
}

/// Every prime implicant of a monotone function is essential: no other
/// prime implicant agrees with the table row in which exactly the variables
/// of its `True` states are true.
pub proof fn lemma_monotone_prime_is_essential(states: Seq<VariableState>, outputs: Seq<bool>)
    requires
        monotone_outputs(outputs, states.len()),
        is_prime(states, outputs),
    ensures
        is_essential(states, outputs),
{
    let n = states.len();
    let pattern = Seq::new(n, |j: int| states[j] == VariableState::True);
    lemma_encode(pattern);
    let least = encode(pattern);
    lemma_prime_without_false(states, outputs);
    assert forall|j: int| 0 <= j < n implies match #[trigger] states[j] {
        VariableState::True => bit(least, j),
        VariableState::False => !bit(least, j),
        VariableState::Factored => true,
    } by {
        assert(bit(least, j) == pattern[j]);
    }
    assert(row_matches(states, least));
    assert forall|other: Seq<VariableState>|
        other.len() == states.len() && #[trigger] is_prime(other, outputs) && row_matches(
            other,
            least,
        ) implies other == states by {
        lemma_prime_without_false(other, outputs);
        assert forall|j: int| 0 <= j < n && other[j] == VariableState::True implies states[j]
            == VariableState::True by {
            assert(bit(least, j));
            assert(bit(least, j) == pattern[j]);
        }
        if other != states {
            assert(!(other =~= states));
            let p = choose|p: int| 0 <= p < n && other[p] != states[p];
            assert(states[p] == VariableState::True && other[p] == VariableState::Factored);
            let wider = states.update(p, VariableState::Factored);
            assert forall|k: int| 0 <= k < outputs.len() && #[trigger] row_matches(
                wider,
                k,
            ) implies outputs[k] by {
                assert forall|j: int| 0 <= j < n implies match #[trigger] other[j] {
                    VariableState::True => bit(k, j),
                    VariableState::False => !bit(k, j),
                    VariableState::Factored => true,
                } by {
                    if other[j] == VariableState::True {
                        assert(j != p);
                        assert(wider[j] == VariableState::True);
                    }
                }
                assert(row_matches(other, k));
            }
            assert(is_implicant(wider, outputs));
        }
    }
    assert(sole_prime(states, outputs, least));
}

/// The essential prime implicants of a monotone function cover its truth table.
pub proof fn lemma_monotone_is_covered(outputs: Seq<bool>, variable_count: nat, k: int)
    requires
        monotone_outputs(outputs, variable_count),
    ensures
        !lacks_essential(outputs, variable_count, k),
{
    if 0 <= k < outputs.len() && outputs[k] {
        let states = row_states(k, variable_count);
        assert forall|j: int| 0 <= j < states.len() implies match #[trigger] states[j] {
            VariableState::True => bit(k, j),
            VariableState::False => !bit(k, j),
            VariableState::Factored => true,
        } by {}
        assert(row_matches(states, k));
        assert forall|m: int| 0 <= m < outputs.len() && #[trigger] row_matches(
            states,
            m,
        ) implies outputs[m] by {
            assert forall|j: int| 0 <= j < variable_count && #[trigger] bit(k, j) implies bit(
                m,
                j,
            ) by {
                assert(states[j] == VariableState::True);
            }
            assert(bits_within(k, m, variable_count));
        }
        let prime = lemma_widen_to_prime(states, outputs);
        lemma_monotone_prime_is_essential(prime, outputs);
        assert(is_essential(prime, outputs) && row_matches(prime, k));
    }
}

/// The reduction of a monotone expression, and so of every expression
/// without negation, never fails for want of an essential prime implicant.
pub proof fn lemma_monotone_never_falls_short(expression: Expression)
    requires
        monotone(expression),
    ensures
        !essentials_fall_short(expression),
{
    lemma_monotone_table(expression);
    assert forall|k: int| !#[trigger] lacks_essential(
        truth_outputs(expression),
        expression.variable_seq().len(),
        k,
    ) by {
        lemma_monotone_is_covered(truth_outputs(expression), expression.variable_seq().len(), k);
    }
}

} // verus!
