//! The implicants of a monotone expression as sets of tests: its prime
//! implicants are its minimal true sets, the sets of tests that make it true
//! when they alone pass and no longer do so when one of them is taken away.
//! They depend on the value of the expression only, so reducing a reduced
//! expression again finds the same implicants.

use crate::bits::{bit, encode, lemma_encode};
use crate::combination::{has_states, implicant_of, is_implicant, is_prime};
use crate::cover::{comes_before, is_essential, is_essential_cover};
use crate::expression::{below, lemma_holds_agree, lemma_variable_seq, monotone, Expression};
use crate::implicant::{row_matches, QMStepRow, VariableState};
use crate::monotone::{
    lemma_monotone_prime_is_essential, lemma_monotone_table, lemma_prime_without_false,
    without_false,
};
use crate::quine_mccluskey::{
    lemma_reduced_is_monotone, lemma_reduction_keeps_value, reduces_to, row_assignment,
    truth_outputs,
};
use vstd::prelude::*;

verus! {

/// The tests of the `True` states of an implicant.
pub open spec fn literal_ids(states: Seq<VariableState>, variables: Seq<i32>) -> Set<i32> {
    Set::new(
        |id: i32|
            exists|j: int|
                0 <= j < states.len() && j < variables.len() && states[j] == VariableState::True
                    && (#[trigger] variables[j]) == id,
    )
}

/// The assignment under which the tests of `ids` pass and all others fail.
pub open spec fn only(ids: Set<i32>) -> spec_fn(i32) -> bool {
    |id: i32| ids.contains(id)
}

/// `ids` is a minimal true set of `expression`: the expression is true when
/// the tests of `ids` alone pass, and false when all but one of them do.
pub open spec fn is_minimal_true_set(expression: Expression, ids: Set<i32>) -> bool {
    &&& expression.holds(only(ids))
    &&& forall|id: i32| ids.contains(id) ==> !expression.holds(only(#[trigger] ids.remove(id)))
}

/// The sets of tests of the implicants `cover`, in their order.
pub open spec fn implicant_sets(cover: Seq<QMStepRow>, variables: Seq<i32>) -> Seq<Set<i32>> {
    Seq::new(cover.len(), |c: int| literal_ids(cover[c].row@, variables))
}

/// The states over `variables` that are `True` for the tests of `ids` and
/// `Factored` for all others.
pub open spec fn states_of_set(ids: Set<i32>, variables: Seq<i32>) -> Seq<VariableState> {
    Seq::new(
        variables.len(),
        |j: int|
            if ids.contains(variables[j]) {
                VariableState::True
            } else {
                VariableState::Factored
            },
    )
}

/// The table row whose set bits are the `True` states of `states`.
pub proof fn lemma_least_row(states: Seq<VariableState>) -> (least: int)
    ensures
        0 <= least < crate::bits::pow2(states.len()),
        forall|j: int|
            0 <= j < states.len() ==> #[trigger] bit(least, j) == (states[j]
                == VariableState::True),
{
    let pattern = Seq::new(states.len(), |j: int| states[j] == VariableState::True);
    lemma_encode(pattern);
    let least = encode(pattern);
    assert forall|j: int| 0 <= j < states.len() implies #[trigger] bit(least, j) == (states[j]
        == VariableState::True) by {
        assert(bit(least, j) == pattern[j]);
    }
    least
}

/// A prime implicant of a monotone expression is a minimal true set of it.
pub proof fn lemma_prime_is_minimal_set(expression: Expression, states: Seq<VariableState>)
    requires
        monotone(expression),
        states.len() == expression.variable_seq().len(),
        is_prime(states, truth_outputs(expression)),
    ensures
        is_minimal_true_set(expression, literal_ids(states, expression.variable_seq())),
{
    let variables = expression.variable_seq();
    let outputs = truth_outputs(expression);
    let ids = literal_ids(states, variables);
    lemma_variable_seq(expression);
    lemma_monotone_table(expression);
    lemma_prime_without_false(states, outputs);
    let least = lemma_least_row(states);
    assert forall|j: int| 0 <= j < states.len() implies match #[trigger] states[j] {
        VariableState::True => bit(least, j),
        VariableState::False => !bit(least, j),
        VariableState::Factored => true,
    } by {
        assert(bit(least, j) == (states[j] == VariableState::True));
    }
    assert(row_matches(states, least));
    assert(outputs[least]);
    let of_row = row_assignment(variables, least);
    assert forall|id: i32| #[trigger] expression.mentions(id) implies of_row(id) == only(ids)(
        id,
    ) by {
        if of_row(id) {
            let j = choose|j: int|
                0 <= j < variables.len() && #[trigger] variables[j] == id && bit(least, j);
            assert(bit(least, j) == (states[j] == VariableState::True));
            assert(states[j] == VariableState::True && variables[j] == id);
            assert(ids.contains(id));
        }
        if ids.contains(id) {
            let j = choose|j: int|
                0 <= j < states.len() && j < variables.len() && states[j] == VariableState::True
                    && (#[trigger] variables[j]) == id;
            assert(bit(least, j) == (states[j] == VariableState::True));
            assert(0 <= j < variables.len() && variables[j] == id && bit(least, j));
        }
    }
    lemma_holds_agree(expression, of_row, only(ids));
    assert forall|id: i32| ids.contains(id) implies !expression.holds(
        only(#[trigger] ids.remove(id)),
    ) by {
        let fewer = only(ids.remove(id));
        if expression.holds(fewer) {
            let p = choose|p: int|
                0 <= p < states.len() && p < variables.len() && states[p] == VariableState::True
                    && (#[trigger] variables[p]) == id;
            let wider = states.update(p, VariableState::Factored);
            assert forall|k: int| 0 <= k < outputs.len() && #[trigger] row_matches(
                wider,
                k,
            ) implies outputs[k] by {
                let upper = row_assignment(variables, k);
                assert forall|other: i32| #[trigger] fewer(other) implies upper(other) by {
                    assert(ids.contains(other) && other != id);
                    let j = choose|j: int|
                        0 <= j < states.len() && j < variables.len() && states[j]
                            == VariableState::True && (#[trigger] variables[j]) == other;
                    assert(j != p);
                    assert(wider[j] == VariableState::True);
                    assert(bit(k, j));
                    assert(0 <= j < variables.len() && variables[j] == other && bit(k, j));
                }
                assert(below(fewer, upper));
                assert(expression.holds(upper));
            }
            assert(is_implicant(wider, outputs));
        }
    }
}

/// A minimal true set of a monotone expression is a prime implicant of it:
/// the states that are `True` for its tests and `Factored` for all others.
pub proof fn lemma_minimal_set_is_prime(expression: Expression, ids: Set<i32>)
    requires
        monotone(expression),
        is_minimal_true_set(expression, ids),
    ensures
        is_prime(states_of_set(ids, expression.variable_seq()), truth_outputs(expression)),
        literal_ids(states_of_set(ids, expression.variable_seq()), expression.variable_seq())
            == ids,
{
    let variables = expression.variable_seq();
    let outputs = truth_outputs(expression);
    let states = states_of_set(ids, variables);
    lemma_variable_seq(expression);
    assert forall|id: i32| ids.contains(id) implies variables.contains(id) by {
        if !expression.mentions(id) {
            let fewer = only(ids.remove(id));
            assert forall|other: i32| #[trigger] expression.mentions(other) implies fewer(other)
                == only(ids)(other) by {}
            lemma_holds_agree(expression, fewer, only(ids));
        }
    }
    assert forall|id: i32| literal_ids(states, variables).contains(id) == ids.contains(id) by {
        if ids.contains(id) {
            let j = choose|j: int| 0 <= j < variables.len() && variables[j] == id;
            assert(states[j] == VariableState::True && variables[j] == id);
        }
        if literal_ids(states, variables).contains(id) {
            let j = choose|j: int|
                0 <= j < states.len() && j < variables.len() && states[j] == VariableState::True
                    && (#[trigger] variables[j]) == id;
            assert(ids.contains(variables[j]));
        }
    }
    assert(literal_ids(states, variables) =~= ids);
    assert forall|k: int| 0 <= k < outputs.len() && #[trigger] row_matches(
        states,
        k,
    ) implies outputs[k] by {
        let upper = row_assignment(variables, k);
        assert forall|id: i32| #[trigger] only(ids)(id) implies upper(id) by {
            let j = choose|j: int| 0 <= j < variables.len() && variables[j] == id;
            assert(states[j] == VariableState::True);
            assert(bit(k, j));
            assert(0 <= j < variables.len() && variables[j] == id && bit(k, j));
        }
        assert(below(only(ids), upper));
        assert(expression.holds(upper));
    }
    assert forall|p: int|
        0 <= p < states.len() && states[p] != VariableState::Factored implies !is_implicant(
        #[trigger] states.update(p, VariableState::Factored),
        outputs,
    ) by {
        let wider = states.update(p, VariableState::Factored);
        if is_implicant(wider, outputs) {
            let id = variables[p];
            assert(ids.contains(id));
            let least = lemma_least_row(wider);
            assert forall|j: int| 0 <= j < wider.len() implies match #[trigger] wider[j] {
                VariableState::True => bit(least, j),
                VariableState::False => !bit(least, j),
                VariableState::Factored => true,
            } by {
                assert(bit(least, j) == (wider[j] == VariableState::True));
            }
            assert(row_matches(wider, least));
            assert(outputs[least]);
            let of_row = row_assignment(variables, least);
            let fewer = only(ids.remove(id));
            assert forall|other: i32| #[trigger] expression.mentions(other) implies of_row(other)
                == fewer(other) by {
                if of_row(other) {
                    let j = choose|j: int|
                        0 <= j < variables.len() && #[trigger] variables[j] == other && bit(
                            least,
                            j,
                        );
                    assert(bit(least, j) == (wider[j] == VariableState::True));
                    assert(j != p);
                    assert(states[j] == VariableState::True);
                    assert(variables[j] != variables[p]);
                }
                if fewer(other) {
                    let j = choose|j: int| 0 <= j < variables.len() && variables[j] == other;
                    assert(j != p);
                    assert(wider[j] == VariableState::True);
                    assert(bit(least, j) == (wider[j] == VariableState::True));
                    assert(0 <= j < variables.len() && variables[j] == other && bit(least, j));
                }
            }
            lemma_holds_agree(expression, of_row, fewer);
        }
    }
}

/// Two implicants without a `False` state that have the same tests have the
/// same states.
pub proof fn lemma_same_ids_same_states(
    first: Seq<VariableState>,
    second: Seq<VariableState>,
    variables: Seq<i32>,
)
    requires
        first.len() == variables.len(),
        second.len() == variables.len(),
        variables.no_duplicates(),
        without_false(first),
        without_false(second),
        literal_ids(first, variables) == literal_ids(second, variables),
    ensures
        first == second,
{
    assert forall|j: int| 0 <= j < first.len() implies first[j] == second[j] by {
        if first[j] == VariableState::True {
            assert(literal_ids(first, variables).contains(variables[j]));
            let i = choose|i: int|
                0 <= i < second.len() && i < variables.len() && second[i] == VariableState::True
                    && (#[trigger] variables[i]) == variables[j];
            assert(i == j);
        }
        if second[j] == VariableState::True {
            assert(literal_ids(second, variables).contains(variables[j]));
            let i = choose|i: int|
                0 <= i < first.len() && i < variables.len() && first[i] == VariableState::True
                    && (#[trigger] variables[i]) == variables[j];
            assert(i == j);
        }
        assert(first[j] != VariableState::False && second[j] != VariableState::False);
    }
    assert(first =~= second);
}

/// The essential prime implicants of a monotone expression are its minimal
/// true sets, each once.
pub proof fn lemma_cover_is_minimal_sets(expression: Expression, cover: Seq<QMStepRow>)
    requires
        monotone(expression),
        is_essential_cover(cover, truth_outputs(expression), expression.variable_seq().len()),
    ensures
        implicant_sets(cover, expression.variable_seq()).no_duplicates(),
        forall|ids: Set<i32>|
            implicant_sets(cover, expression.variable_seq()).contains(ids) <==> is_minimal_true_set(
                expression,
                ids,
            ),
{
    let variables = expression.variable_seq();
    let outputs = truth_outputs(expression);
    let n = variables.len();
    let sets = implicant_sets(cover, variables);
    lemma_variable_seq(expression);
    lemma_monotone_table(expression);
    assert forall|c: int| 0 <= c < cover.len() implies (#[trigger] cover[c]).row@.len() == n
        && is_prime(cover[c].row@, outputs) && without_false(cover[c].row@)
        && is_minimal_true_set(expression, sets[c]) by {
        assert(implicant_of(cover[c], outputs, n));
        assert(is_essential(cover[c].row@, outputs));
        lemma_prime_without_false(cover[c].row@, outputs);
        lemma_prime_is_minimal_set(expression, cover[c].row@);
    }
    assert forall|c: int, d: int| 0 <= c < d < sets.len() implies sets[c] != sets[d] by {
        if sets[c] == sets[d] {
            lemma_same_ids_same_states(cover[c].row@, cover[d].row@, variables);
            assert(comes_before(cover[c].row@, cover[d].row@, outputs));
        }
    }
    assert(sets.no_duplicates()) by {
        assert forall|c: int, d: int| 0 <= c < sets.len() && 0 <= d < sets.len() && c != d implies sets[c]
            != sets[d] by {
            if c < d {
                assert(sets[c] != sets[d]);
            } else {
                assert(sets[d] != sets[c]);
            }
        }
    }
    assert forall|ids: Set<i32>| sets.contains(ids) <==> is_minimal_true_set(expression, ids) by {
        if sets.contains(ids) {
            let c = choose|c: int| 0 <= c < sets.len() && sets[c] == ids;
            assert(is_minimal_true_set(expression, sets[c]));
        }
        if is_minimal_true_set(expression, ids) {
            lemma_minimal_set_is_prime(expression, ids);
            let states = states_of_set(ids, variables);
            lemma_monotone_prime_is_essential(states, outputs);
            assert(has_states(cover, states));
            let c = choose|c: int| 0 <= c < cover.len() && (#[trigger] cover[c]).row@ == states;
            assert(sets[c] == ids);
        }
    }
}

/// Reducing the reduced form of a monotone expression again finds the same
/// implicants: as many, and each with the tests of one of the first.
pub proof fn lemma_reduced_again_has_same_implicants(
    expression: Expression,
    once: Expression,
    first: Seq<QMStepRow>,
    second: Seq<QMStepRow>,
)
    requires
        monotone(expression),
        reduces_to(expression, once),
        is_essential_cover(first, truth_outputs(expression), expression.variable_seq().len()),
        is_essential_cover(second, truth_outputs(once), once.variable_seq().len()),
    ensures
        second.len() == first.len(),
        implicant_sets(second, once.variable_seq()).to_set() == implicant_sets(
            first,
            expression.variable_seq(),
        ).to_set(),
{
    let sets = implicant_sets(first, expression.variable_seq());
    let again = implicant_sets(second, once.variable_seq());
    lemma_reduced_is_monotone(expression, once);
    lemma_cover_is_minimal_sets(expression, first);
    lemma_cover_is_minimal_sets(once, second);
    assert forall|ids: Set<i32>| is_minimal_true_set(once, ids) == is_minimal_true_set(
        expression,
        ids,
    ) by {
        lemma_reduction_keeps_value(expression, once, only(ids));
        assert forall|id: i32| once.holds(only(#[trigger] ids.remove(id))) == expression.holds(
            only(ids.remove(id)),
        ) by {
            lemma_reduction_keeps_value(expression, once, only(ids.remove(id)));
        }
    }
    assert forall|ids: Set<i32>| again.to_set().contains(ids) == sets.to_set().contains(ids) by {
        assert(again.contains(ids) == is_minimal_true_set(once, ids));
        assert(sets.contains(ids) == is_minimal_true_set(expression, ids));
    }
    assert(again.to_set() =~= sets.to_set());
    sets.unique_seq_to_set();
    again.unique_seq_to_set();
}

} // verus!
