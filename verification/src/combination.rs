//! The first phase of the Quine-McCluskey method: implicants are combined,
//! generation by generation, until none combines any further; what was never
//! combined is a prime implicant.

use crate::bits::{bit, encode, lemma_encode, lemma_same_bits, pow2};
use crate::implicant::{
    combines, contains_row, count_of, differ_only_at, lemma_combined_matches, lemma_count_bound,
    lemma_count_none, lemma_count_update, row_matches, AllQMSteps, QMStepRow, VariableState,
};
use vstd::prelude::*;

verus! {

/// `states` implies the function whose truth table has the output column
/// `outputs`: every table row that agrees with `states` has the output true.
pub open spec fn is_implicant(states: Seq<VariableState>, outputs: Seq<bool>) -> bool {
    forall|k: int| 0 <= k < outputs.len() && #[trigger] row_matches(states, k) ==> outputs[k]
}

/// `states` is a prime implicant: an implicant that is none any more once
/// one more of its variables is eliminated.
pub open spec fn is_prime(states: Seq<VariableState>, outputs: Seq<bool>) -> bool {
    &&& is_implicant(states, outputs)
    &&& forall|p: int|
        0 <= p < states.len() && states[p] != VariableState::Factored ==> !is_implicant(
            #[trigger] states.update(p, VariableState::Factored),
            outputs,
        )
}

/// The two rows differ in the state of one variable alone, which is
/// `Factored` in neither.
pub open spec fn combinable(first: Seq<VariableState>, second: Seq<VariableState>) -> bool {
    exists|position: int| #[trigger] differ_only_at(first, second, position)
}

/// The states that two rows combine to: those on which they agree, and
/// `Factored` where they differ.
pub open spec fn merged(first: Seq<VariableState>, second: Seq<VariableState>) -> Seq<
    VariableState,
> {
    Seq::new(
        first.len(),
        |j: int|
            if first[j] == second[j] {
                first[j]
            } else {
                VariableState::Factored
            },
    )
}

/// `row` is an implicant of the function whose truth table has the output
/// column `outputs`, over `variable_count` variables, and the rows that it
/// lists as covered are the table rows that agree with its states.
pub open spec fn implicant_of(row: QMStepRow, outputs: Seq<bool>, variable_count: nat) -> bool {
    &&& row.row@.len() == variable_count
    &&& row.true_count == count_of(row.row@, VariableState::True)
    &&& row.covered_rows@.len() > 0
    &&& forall|i: int|
        0 <= i < row.covered_rows@.len() ==> (#[trigger] row.covered_rows@[i]) < outputs.len()
            && row_matches(row.row@, row.covered_rows@[i] as int)
    &&& is_implicant(row.row@, outputs)
    &&& forall|k: int|
        0 <= k < outputs.len() && #[trigger] row_matches(row.row@, k)
            ==> row.covered_rows@.contains(k as usize)
}

/// Every one of `rows` is an implicant.
pub open spec fn implicants(rows: Seq<QMStepRow>, outputs: Seq<bool>, variable_count: nat) -> bool {
    forall|i: int| 0 <= i < rows.len() ==> implicant_of(#[trigger] rows[i], outputs, variable_count)
}

/// Every one of `rows` is an implicant with `factored` variables eliminated
/// and `trues` states `True`.
pub open spec fn group_of(
    rows: Seq<QMStepRow>,
    outputs: Seq<bool>,
    variable_count: nat,
    factored: nat,
    trues: int,
) -> bool {
    forall|x: int|
        0 <= x < rows.len() ==> {
            &&& implicant_of(#[trigger] rows[x], outputs, variable_count)
            &&& count_of(rows[x].row@, VariableState::Factored) == factored
            &&& rows[x].true_count == trues
        }
}

/// `all` is a generation of implicants over `variable_count` variables, each
/// with `factored` variables eliminated, in one group per number of `True` states.
pub open spec fn generation(
    all: AllQMSteps,
    outputs: Seq<bool>,
    variable_count: nat,
    factored: nat,
) -> bool {
    &&& all.steps@.len() == variable_count + 1
    &&& forall|b: int|
        0 <= b < all.steps@.len() ==> group_of(
            (#[trigger] all.steps@[b])@,
            outputs,
            variable_count,
            factored,
            b,
        )
}

/// Whether one of `rows` has the states `states`.
pub open spec fn has_states(rows: Seq<QMStepRow>, states: Seq<VariableState>) -> bool {
    exists|k: int| 0 <= k < rows.len() && (#[trigger] rows[k]).row@ == states
}

/// Whether `all` holds, in the group of their number of `True` states, the states `states`.
pub open spec fn holds_states(all: AllQMSteps, states: Seq<VariableState>) -> bool {
    &&& count_of(states, VariableState::True) < all.steps@.len()
    &&& has_states(all.steps@[count_of(states, VariableState::True) as int]@, states)
}

/// `all` holds every implicant over `variable_count` variables with
/// `factored` variables eliminated.
pub open spec fn complete(
    all: AllQMSteps,
    outputs: Seq<bool>,
    variable_count: nat,
    factored: nat,
) -> bool {
    forall|states: Seq<VariableState>|
        states.len() == variable_count && count_of(states, VariableState::Factored) == factored
            && #[trigger] is_implicant(states, outputs) ==> holds_states(all, states)
}

/// `later` holds every implicant that `earlier` holds, at the same place.
pub open spec fn grows(earlier: AllQMSteps, later: AllQMSteps) -> bool {
    &&& later.steps@.len() == earlier.steps@.len()
    &&& forall|b: int|
        0 <= b < earlier.steps@.len() ==> (#[trigger] earlier.steps@[b])@.len()
            <= later.steps@[b]@.len() && earlier.steps@[b]@ == later.steps@[b]@.take(
            earlier.steps@[b]@.len() as int,
        )
}

/// Where the two rows are combinable, `next` holds what they combine to.
pub open spec fn pair_done(low: QMStepRow, high: QMStepRow, next: AllQMSteps) -> bool {
    combinable(low.row@, high.row@) ==> holds_states(next, merged(low.row@, high.row@))
}

/// One of the first `count` of `rows` is combinable with `states`.
pub open spec fn partner_in(states: Seq<VariableState>, rows: Seq<QMStepRow>, count: int) -> bool {
    exists|y: int| 0 <= y < count && y < rows.len() && combinable(states, (#[trigger] rows[y]).row@)
}

/// The prime implicants found so far: each is a prime implicant, and no two
/// have the same states.
pub open spec fn prime_list(primes: Seq<QMStepRow>, outputs: Seq<bool>, variable_count: nat) -> bool {
    &&& implicants(primes, outputs, variable_count)
    &&& forall|i: int| 0 <= i < primes.len() ==> is_prime((#[trigger] primes[i]).row@, outputs)
    &&& forall|i: int, j: int|
        0 <= i < j < primes.len() ==> (#[trigger] primes[i]).row@ != (#[trigger] primes[j]).row@
}

/// `primes` holds every prime implicant with fewer than `factored` variables eliminated.
pub open spec fn primes_below(
    primes: Seq<QMStepRow>,
    outputs: Seq<bool>,
    variable_count: nat,
    factored: nat,
) -> bool {
    forall|states: Seq<VariableState>|
        states.len() == variable_count && count_of(states, VariableState::Factored) < factored
            && #[trigger] is_prime(states, outputs) ==> has_states(primes, states)
}

/// The output column of a truth table whose rows have `variable_count` inputs.
pub open spec fn output_column(table: Seq<Vec<bool>>, variable_count: int) -> Seq<bool> {
    Seq::new(table.len(), |k: int| table[k]@[variable_count])
}

/// The rows of `table` have `variable_count` inputs and an output, and input
/// `j` of row `k` is bit `j` of `k`.
pub open spec fn enumerates_inputs(table: Seq<Vec<bool>>, variable_count: nat) -> bool {
    &&& table.len() == pow2(variable_count)
    &&& forall|k: int|
        0 <= k < table.len() ==> {
            &&& (#[trigger] table[k])@.len() == variable_count + 1
            &&& forall|j: int| 0 <= j < variable_count ==> #[trigger] table[k]@[j] == bit(k, j)
        }
}

/// The states that stand for the table row `index`: `True` where its bit is
/// set, `False` where it is clear.
pub open spec fn row_states(index: int, variable_count: nat) -> Seq<VariableState> {
    Seq::new(
        variable_count,
        |j: int|
            if bit(index, j) {
                VariableState::True
            } else {
                VariableState::False
            },
    )
}

/// Two rows that differ at one position combine to the first with that
/// position `Factored`; and they differ there whichever comes first.
pub proof fn lemma_merged(first: Seq<VariableState>, second: Seq<VariableState>, position: int)
    requires
        differ_only_at(first, second, position),
    ensures
        merged(first, second) == first.update(position, VariableState::Factored),
        merged(second, first) == merged(first, second),
        differ_only_at(second, first, position),
{
    assert(merged(first, second) =~= first.update(position, VariableState::Factored));
    assert(merged(second, first) =~= merged(first, second));
}

/// Some row of the table agrees with any given states.
pub proof fn lemma_some_row_matches(states: Seq<VariableState>) -> (index: int)
    ensures
        0 <= index < pow2(states.len()),
        row_matches(states, index),
{
    let pattern = Seq::new(states.len(), |j: int| states[j] == VariableState::True);
    lemma_encode(pattern);
    let index = encode(pattern);
    assert forall|j: int| 0 <= j < states.len() implies match #[trigger] states[j] {
        VariableState::True => bit(index, j),
        VariableState::False => !bit(index, j),
        VariableState::Factored => true,
    } by {
        assert(bit(index, j) == pattern[j]);
    }
    index
}

/// A row that agrees with states agrees with them once a variable is eliminated.
pub proof fn lemma_update_matches(
    states: Seq<VariableState>,
    position: int,
    state: VariableState,
    index: int,
)
    requires
        0 <= position < states.len(),
        states[position] == VariableState::Factored,
        row_matches(states.update(position, state), index),
    ensures
        row_matches(states, index),
{
    let updated = states.update(position, state);
    assert forall|j: int| 0 <= j < states.len() implies match #[trigger] states[j] {
        VariableState::True => bit(index, j),
        VariableState::False => !bit(index, j),
        VariableState::Factored => true,
    } by {
        if j != position {
            assert(updated[j] == states[j]);
        }
    }
}

/// An implicant stays one when an eliminated variable is given a state.
pub proof fn lemma_specialise(
    states: Seq<VariableState>,
    position: int,
    state: VariableState,
    outputs: Seq<bool>,
)
    requires
        0 <= position < states.len(),
        states[position] == VariableState::Factored,
        is_implicant(states, outputs),
    ensures
        is_implicant(states.update(position, state), outputs),
{
    assert forall|k: int|
        0 <= k < outputs.len() && #[trigger] row_matches(
            states.update(position, state),
            k,
        ) implies outputs[k] by {
        lemma_update_matches(states, position, state, k);
    }
}

/// What two combinable implicants combine to is an implicant.
pub proof fn lemma_merged_implicant(
    first: Seq<VariableState>,
    second: Seq<VariableState>,
    outputs: Seq<bool>,
)
    requires
        combinable(first, second),
        is_implicant(first, outputs),
        is_implicant(second, outputs),
    ensures
        is_implicant(merged(first, second), outputs),
{
    let position = choose|position: int| #[trigger] differ_only_at(first, second, position);
    lemma_merged(first, second, position);
    assert forall|k: int|
        0 <= k < outputs.len() && #[trigger] row_matches(merged(first, second), k) implies outputs[k] by {
        lemma_combined_matches(first, second, position, k);
    }
}

/// Where some state is counted, it stands at some position.
pub proof fn lemma_counted_position(states: Seq<VariableState>, state: VariableState) -> (position:
    int)
    requires
        count_of(states, state) > 0,
    ensures
        0 <= position < states.len(),
        states[position] == state,
    decreases states.len(),
{
    if states.last() == state {
        states.len() - 1
    } else {
        lemma_counted_position(states.drop_last(), state)
    }
}

/// Among the implicants there is one for every smaller number of
/// eliminated variables.
pub proof fn lemma_fewer_factored(states: Seq<VariableState>, outputs: Seq<bool>, factored: nat) -> (
    fewer: Seq<VariableState>
)
    requires
        is_implicant(states, outputs),
        count_of(states, VariableState::Factored) >= factored,
    ensures
        fewer.len() == states.len(),
        is_implicant(fewer, outputs),
        count_of(fewer, VariableState::Factored) == factored,
    decreases count_of(states, VariableState::Factored),
{
    if count_of(states, VariableState::Factored) == factored {
        states
    } else {
        let position = lemma_counted_position(states, VariableState::Factored);
        let next = states.update(position, VariableState::False);
        lemma_specialise(states, position, VariableState::False, outputs);
        lemma_count_update(states, position, VariableState::False, VariableState::Factored);
        lemma_fewer_factored(next, outputs, factored)
    }
}

/// What two implicants combine to is an implicant, with one more variable
/// eliminated, and its states are those that the two merge to.
pub proof fn lemma_combination(
    first: QMStepRow,
    second: QMStepRow,
    combined: QMStepRow,
    outputs: Seq<bool>,
    variable_count: nat,
)
    requires
        implicant_of(first, outputs, variable_count),
        implicant_of(second, outputs, variable_count),
        combines(first, second, combined),
    ensures
        implicant_of(combined, outputs, variable_count),
        count_of(combined.row@, VariableState::Factored) == count_of(
            first.row@,
            VariableState::Factored,
        ) + 1,
        combined.true_count <= variable_count,
        combined.row@ == merged(first.row@, second.row@),
{
    let position = choose|position: int|
        {
            &&& #[trigger] differ_only_at(first.row@, second.row@, position)
            &&& combined.row@ == first.row@.update(position, VariableState::Factored)
            &&& combined.true_count == count_of(combined.row@, VariableState::True)
            &&& combined.covered_rows@ == first.covered_rows@ + second.covered_rows@
        };
    lemma_merged(first.row@, second.row@, position);
    lemma_count_update(
        first.row@,
        position,
        VariableState::Factored,
        VariableState::Factored,
    );
    lemma_count_bound(combined.row@, VariableState::True);
    assert forall|i: int| 0 <= i < combined.covered_rows@.len() implies (
    #[trigger] combined.covered_rows@[i]) < outputs.len() && row_matches(
        combined.row@,
        combined.covered_rows@[i] as int,
    ) by {
        let k = combined.covered_rows@[i];
        lemma_combined_matches(first.row@, second.row@, position, k as int);
        if i < first.covered_rows@.len() {
            assert(k == first.covered_rows@[i]);
        } else {
            assert(k == second.covered_rows@[i - first.covered_rows@.len()]);
        }
    }
    assert forall|k: int| 0 <= k < outputs.len() && #[trigger] row_matches(
        combined.row@,
        k,
    ) implies outputs[k] && combined.covered_rows@.contains(k as usize) by {
        lemma_combined_matches(first.row@, second.row@, position, k);
        if row_matches(first.row@, k) {
            let i = choose|i: int|
                0 <= i < first.covered_rows@.len() && first.covered_rows@[i] == k as usize;
            assert(combined.covered_rows@[i] == k as usize);
        } else {
            let i = choose|i: int|
                0 <= i < second.covered_rows@.len() && second.covered_rows@[i] == k as usize;
            assert(combined.covered_rows@[first.covered_rows@.len() + i] == k as usize);
        }
    }
}

/// What a generation holds, it still holds after it has grown.
pub proof fn lemma_grows(earlier: AllQMSteps, later: AllQMSteps, states: Seq<VariableState>)
    requires
        grows(earlier, later),
        holds_states(earlier, states),
    ensures
        holds_states(later, states),
{
    let b = count_of(states, VariableState::True) as int;
    let k = choose|k: int| 0 <= k < earlier.steps@[b]@.len() && (#[trigger] earlier.steps@[b]@[k]).row@
        == states;
    assert(earlier.steps@[b]@ == later.steps@[b]@.take(earlier.steps@[b]@.len() as int));
    assert(later.steps@[b]@[k] == later.steps@[b]@.take(earlier.steps@[b]@.len() as int)[k]);
}

/// A generation holds what it holds.
pub proof fn lemma_grows_reflexive(all: AllQMSteps)
    ensures
        grows(all, all),
{
    assert forall|b: int| 0 <= b < all.steps@.len() implies (#[trigger] all.steps@[b])@
        == all.steps@[b]@.take(all.steps@[b]@.len() as int) by {
        assert(all.steps@[b]@ =~= all.steps@[b]@.take(all.steps@[b]@.len() as int));
    }
}

/// Growth goes on: what has grown twice has grown.
pub proof fn lemma_grows_transitive(first: AllQMSteps, second: AllQMSteps, third: AllQMSteps)
    requires
        grows(first, second),
        grows(second, third),
    ensures
        grows(first, third),
{
    assert forall|b: int| 0 <= b < first.steps@.len() implies (#[trigger] first.steps@[b])@.len()
        <= third.steps@[b]@.len() && first.steps@[b]@ == third.steps@[b]@.take(
        first.steps@[b]@.len() as int,
    ) by {
        let one = first.steps@[b]@;
        let two = second.steps@[b]@;
        let three = third.steps@[b]@;
        assert(one == two.take(one.len() as int));
        assert(two == three.take(two.len() as int));
        assert(one =~= three.take(one.len() as int));
    }
}

/// In a complete generation, an implicant is prime iff it is combinable
/// with none of the next group and with none of the group before.
pub proof fn lemma_prime_has_no_partner(
    current: AllQMSteps,
    outputs: Seq<bool>,
    variable_count: nat,
    factored: nat,
    b: int,
    x: int,
)
    requires
        generation(current, outputs, variable_count, factored),
        complete(current, outputs, variable_count, factored),
        0 <= b < current.steps@.len(),
        0 <= x < current.steps@[b]@.len(),
    ensures
        is_prime(current.steps@[b]@[x].row@, outputs) <==> !(b + 1 < current.steps@.len()
            && partner_in(
            current.steps@[b]@[x].row@,
            current.steps@[b + 1]@,
            current.steps@[b + 1]@.len() as int,
        )) && !(b > 0 && partner_in(
            current.steps@[b]@[x].row@,
            current.steps@[b - 1]@,
            current.steps@[b - 1]@.len() as int,
        )),
{
    let row = current.steps@[b]@[x];
    let states = row.row@;
    assert(group_of(current.steps@[b]@, outputs, variable_count, factored, b));
    assert(implicant_of(row, outputs, variable_count));
    if b + 1 < current.steps@.len() && partner_in(
        states,
        current.steps@[b + 1]@,
        current.steps@[b + 1]@.len() as int,
    ) {
        let y = choose|y: int|
            0 <= y < current.steps@[b + 1]@.len() && combinable(
                states,
                (#[trigger] current.steps@[b + 1]@[y]).row@,
            );
        let other = current.steps@[b + 1]@[y];
        assert(group_of(current.steps@[b + 1]@, outputs, variable_count, factored, b + 1));
        assert(implicant_of(other, outputs, variable_count));
        let p = choose|p: int| #[trigger] differ_only_at(states, other.row@, p);
        lemma_merged(states, other.row@, p);
        lemma_merged_implicant(states, other.row@, outputs);
        assert(is_implicant(states.update(p, VariableState::Factored), outputs));
    }
    if b > 0 && partner_in(states, current.steps@[b - 1]@, current.steps@[b - 1]@.len() as int) {
        let y = choose|y: int|
            0 <= y < current.steps@[b - 1]@.len() && combinable(
                states,
                (#[trigger] current.steps@[b - 1]@[y]).row@,
            );
        let other = current.steps@[b - 1]@[y];
        assert(group_of(current.steps@[b - 1]@, outputs, variable_count, factored, b - 1));
        assert(implicant_of(other, outputs, variable_count));
        let p = choose|p: int| #[trigger] differ_only_at(states, other.row@, p);
        lemma_merged(states, other.row@, p);
        lemma_merged_implicant(states, other.row@, outputs);
        assert(is_implicant(states.update(p, VariableState::Factored), outputs));
    }
    if !is_prime(states, outputs) {
        let p = choose|p: int|
            0 <= p < states.len() && states[p] != VariableState::Factored && is_implicant(
                #[trigger] states.update(p, VariableState::Factored),
                outputs,
            );
        let wider = states.update(p, VariableState::Factored);
        let flipped = if states[p] == VariableState::True {
            VariableState::False
        } else {
            VariableState::True
        };
        let other = states.update(p, flipped);
        assert(other =~= wider.update(p, flipped));
        lemma_specialise(wider, p, flipped, outputs);
        lemma_count_update(states, p, flipped, VariableState::Factored);
        lemma_count_update(states, p, flipped, VariableState::True);
        lemma_count_bound(other, VariableState::True);
        assert(differ_only_at(states, other, p));
        assert(holds_states(current, other));
        let t = count_of(other, VariableState::True) as int;
        let y = choose|y: int|
            0 <= y < current.steps@[t]@.len() && (#[trigger] current.steps@[t]@[y]).row@ == other;
        assert(combinable(states, current.steps@[t]@[y].row@));
        if states[p] == VariableState::True {
            assert(t == b - 1);
            assert(partner_in(states, current.steps@[b - 1]@, current.steps@[b - 1]@.len() as int));
        } else {
            assert(t == b + 1);
            assert(partner_in(states, current.steps@[b + 1]@, current.steps@[b + 1]@.len() as int));
        }
    }
}

/// Once every implicant of every group has been tried against every
/// implicant of the next group, the next generation is complete.
pub proof fn lemma_next_complete(
    current: AllQMSteps,
    next: AllQMSteps,
    outputs: Seq<bool>,
    variable_count: nat,
    factored: nat,
)
    requires
        generation(current, outputs, variable_count, factored),
        complete(current, outputs, variable_count, factored),
        next.steps@.len() == variable_count + 1,
        forall|b: int, x: int, y: int|
            0 <= b && b + 1 < current.steps@.len() && 0 <= x < current.steps@[b]@.len() && 0 <= y
                < current.steps@[b + 1]@.len() ==> pair_done(
                #[trigger] current.steps@[b]@[x],
                #[trigger] current.steps@[b + 1]@[y],
                next,
            ),
    ensures
        complete(next, outputs, variable_count, factored + 1),
{
    assert forall|states: Seq<VariableState>|
        states.len() == variable_count && count_of(states, VariableState::Factored) == factored + 1
            && #[trigger] is_implicant(states, outputs) implies holds_states(next, states) by {
        let p = lemma_counted_position(states, VariableState::Factored);
        let low = states.update(p, VariableState::False);
        let high = states.update(p, VariableState::True);
        lemma_specialise(states, p, VariableState::False, outputs);
        lemma_specialise(states, p, VariableState::True, outputs);
        lemma_count_update(states, p, VariableState::False, VariableState::Factored);
        lemma_count_update(states, p, VariableState::True, VariableState::Factored);
        lemma_count_update(states, p, VariableState::False, VariableState::True);
        lemma_count_update(states, p, VariableState::True, VariableState::True);
        lemma_count_bound(high, VariableState::True);
        let t = count_of(low, VariableState::True) as int;
        assert(count_of(high, VariableState::True) == t + 1);
        assert(holds_states(current, low));
        assert(holds_states(current, high));
        let x = choose|x: int|
            0 <= x < current.steps@[t]@.len() && (#[trigger] current.steps@[t]@[x]).row@ == low;
        let y = choose|y: int|
            0 <= y < current.steps@[t + 1]@.len() && (#[trigger] current.steps@[t + 1]@[y]).row@
                == high;
        assert(differ_only_at(low, high, p));
        lemma_merged(low, high, p);
        assert(merged(low, high) =~= states);
        assert(pair_done(current.steps@[t]@[x], current.steps@[t + 1]@[y], next));
    }
}

/// A list of `count` flags, none set.
pub fn cleared_flags(count: usize) -> (flags: Vec<bool>)
    ensures
        flags@.len() == count,
        forall|i: int| 0 <= i < count ==> !flags@[i],
{
    let mut flags = Vec::<bool>::new();
    let mut i: usize = 0;
    while i < count
        invariant
            i <= count,
            flags@.len() == i,
            forall|k: int| 0 <= k < i ==> !flags@[k],
        decreases count - i,
    {
        flags.push(false);
        i += 1;
    }
    flags
}

/// Adds `row` to the group of its number of `True` states, unless an
/// implicant with the same states is already there.
pub fn add_row(all: &mut AllQMSteps, row: QMStepRow)
    requires
        row.true_count < old(all).steps@.len(),
    ensures
        final(all).steps@.len() == old(all).steps@.len(),
        forall|b: int|
            0 <= b < old(all).steps@.len() && b != row.true_count
                ==> #[trigger] final(all).steps@[b] == old(all).steps@[b],
        final(all).steps@[row.true_count as int]@ == if has_states(
            old(all).steps@[row.true_count as int]@,
            row.row@,
        ) {
            old(all).steps@[row.true_count as int]@
        } else {
            old(all).steps@[row.true_count as int]@.push(row)
        },
        grows(*old(all), *final(all)),
        has_states(final(all).steps@[row.true_count as int]@, row.row@),
{
    let group = row.true_count;
    let ghost before = *all;
    if !contains_row(&all.steps[group], &row) {
        all.steps[group].push(row);
        assert(all.steps@[group as int]@[before.steps@[group as int]@.len() as int] == row);
    }
    assert forall|b: int| 0 <= b < before.steps@.len() implies (#[trigger] before.steps@[b])@.len()
        <= all.steps@[b]@.len() && before.steps@[b]@ == all.steps@[b]@.take(
        before.steps@[b]@.len() as int,
    ) by {
        if b != group {
            assert(all.steps@[b] == before.steps@[b]);
        }
        assert(before.steps@[b]@ =~= all.steps@[b]@.take(before.steps@[b]@.len() as int));
    }
}

/// The first generation: one implicant for each row of the truth table whose
/// output is true, with the inputs of the row as its states.
fn initial_steps(table: &Vec<Vec<bool>>, variable_count: usize) -> (all: AllQMSteps)
    requires
        variable_count < usize::MAX,
        enumerates_inputs(table@, variable_count as nat),
    ensures
        generation(all, output_column(table@, variable_count as int), variable_count as nat, 0),
        complete(all, output_column(table@, variable_count as int), variable_count as nat, 0),
{
    let ghost outputs = output_column(table@, variable_count as int);
    let ghost n = variable_count as nat;
    let mut all = AllQMSteps::new(variable_count);
    let mut i: usize = 0;
    while i < table.len()
        invariant
            i <= table@.len(),
            variable_count < usize::MAX,
            n == variable_count,
            enumerates_inputs(table@, n),
            outputs == output_column(table@, variable_count as int),
            generation(all, outputs, n, 0),
            forall|k: int| 0 <= k < i && outputs[k] ==> holds_states(all, #[trigger] row_states(k, n)),
        decreases table@.len() - i,
    {
        if table[i][variable_count] {
            let mut true_count: usize = 0;
            let mut row = Vec::<VariableState>::new();
            let mut j: usize = 0;
            while j < variable_count
                invariant
                    j <= variable_count,
                    i < table@.len(),
                    enumerates_inputs(table@, variable_count as nat),
                    row@.len() == j,
                    true_count == count_of(row@, VariableState::True),
                    true_count <= j,
                    forall|c: int|
                        0 <= c < j ==> #[trigger] row@[c] == if bit(i as int, c) {
                            VariableState::True
                        } else {
                            VariableState::False
                        },
                decreases variable_count - j,
            {
                let ghost before = row@;
                if table[i][j] {
                    row.push(VariableState::True);
                    true_count += 1;
                } else {
                    row.push(VariableState::False);
                }
                assert(row@.drop_last() =~= before);
                j += 1;
            }
            let mut covered_rows = Vec::<usize>::new();
            covered_rows.push(i);
            let implicant = QMStepRow { row, true_count, covered_rows };
            proof {
                assert(implicant.row@ =~= row_states(i as int, n));
                lemma_count_none(implicant.row@, VariableState::Factored);
                assert(row_matches(implicant.row@, i as int));
                assert forall|k: int| 0 <= k < outputs.len() && #[trigger] row_matches(
                    implicant.row@,
                    k,
                ) implies outputs[k] && implicant.covered_rows@.contains(k as usize) by {
                    assert forall|c: int| 0 <= c < variable_count implies #[trigger] bit(k, c)
                        == bit(i as int, c) by {
                        assert(implicant.row@[c] != VariableState::Factored);
                    }
                    lemma_same_bits(k, i as int, n);
                    assert(implicant.covered_rows@[0] == i);
                }
                assert(implicant_of(implicant, outputs, n));
            }
            let ghost before = all;
            add_row(&mut all, implicant);
            proof {
                assert forall|b: int| 0 <= b < all.steps@.len() implies group_of(
                    (#[trigger] all.steps@[b])@,
                    outputs,
                    n,
                    0,
                    b,
                ) by {
                    assert(group_of(before.steps@[b]@, outputs, n, 0, b));
                    assert forall|x: int| 0 <= x < all.steps@[b]@.len() implies {
                        &&& implicant_of(#[trigger] all.steps@[b]@[x], outputs, n)
                        &&& count_of(all.steps@[b]@[x].row@, VariableState::Factored) == 0
                        &&& all.steps@[b]@[x].true_count == b
                    } by {
                        if b != implicant.true_count {
                            assert(all.steps@[b] == before.steps@[b]);
                        } else if x < before.steps@[b]@.len() {
                            assert(all.steps@[b]@[x] == before.steps@[b]@[x]);
                        }
                    }
                }
                assert forall|k: int| 0 <= k < i + 1 && outputs[k] implies holds_states(
                    all,
                    #[trigger] row_states(k, n),
                ) by {
                    if k < i {
                        lemma_grows(before, all, row_states(k, n));
                    }
                }
            }
        }
        i += 1;
    }
    proof {
        assert forall|states: Seq<VariableState>|
            states.len() == n && count_of(states, VariableState::Factored) == 0
                && #[trigger] is_implicant(states, outputs) implies holds_states(all, states) by {
            let k = lemma_some_row_matches(states);
            assert(outputs[k]);
            assert forall|j: int| 0 <= j < n implies states[j] == row_states(k, n)[j] by {
                if states[j] == VariableState::Factored {
                    lemma_count_some(states, VariableState::Factored, j);
                }
            }
            assert(states =~= row_states(k, n));
        }
    }
    all
}

/// A state that stands at some position is counted.
pub proof fn lemma_count_some(states: Seq<VariableState>, state: VariableState, position: int)
    requires
        0 <= position < states.len(),
        states[position] == state,
    ensures
        count_of(states, state) > 0,
    decreases states.len(),
{
    if position < states.len() - 1 {
        lemma_count_some(states.drop_last(), state, position);
    }
}

/// Tries every implicant of the group `low` against every implicant of the
/// next group `high`. What two of them combine to is added to `next`, and
/// both are flagged as used.
fn combine_groups(
    low: &Vec<QMStepRow>,
    high: &Vec<QMStepRow>,
    next: &mut AllQMSteps,
    used_low: &mut Vec<bool>,
    used_high: &mut Vec<bool>,
    Ghost(outputs): Ghost<Seq<bool>>,
    Ghost(variable_count): Ghost<nat>,
    Ghost(factored): Ghost<nat>,
)
    requires
        implicants(low@, outputs, variable_count),
        implicants(high@, outputs, variable_count),
        forall|x: int|
            0 <= x < low@.len() ==> count_of((#[trigger] low@[x]).row@, VariableState::Factored)
                == factored,
        generation(*old(next), outputs, variable_count, factored + 1),
        old(used_low)@.len() == low@.len(),
        old(used_high)@.len() == high@.len(),
    ensures
        generation(*final(next), outputs, variable_count, factored + 1),
        grows(*old(next), *final(next)),
        forall|x: int, y: int|
            0 <= x < low@.len() && 0 <= y < high@.len() ==> pair_done(
                #[trigger] low@[x],
                #[trigger] high@[y],
                *final(next),
            ),
        final(used_low)@.len() == low@.len(),
        final(used_high)@.len() == high@.len(),
        forall|x: int|
            0 <= x < low@.len() ==> #[trigger] final(used_low)@[x] == (old(used_low)@[x]
                || partner_in(low@[x].row@, high@, high@.len() as int)),
        forall|y: int|
            0 <= y < high@.len() ==> #[trigger] final(used_high)@[y] == (old(used_high)@[y]
                || partner_in(high@[y].row@, low@, low@.len() as int)),
{
    let ghost start = *next;
    let ghost start_low = used_low@;
    let ghost start_high = used_high@;
    proof {
        lemma_grows_reflexive(start);
    }
    let mut x: usize = 0;
    while x < low.len()
        invariant
            x <= low@.len(),
            implicants(low@, outputs, variable_count),
            implicants(high@, outputs, variable_count),
            forall|z: int|
                0 <= z < low@.len() ==> count_of(
                    (#[trigger] low@[z]).row@,
                    VariableState::Factored,
                ) == factored,
            generation(*next, outputs, variable_count, factored + 1),
            grows(start, *next),
            used_low@.len() == low@.len(),
            used_high@.len() == high@.len(),
            start_low.len() == low@.len(),
            start_high.len() == high@.len(),
            forall|z: int, y: int|
                0 <= z < x && 0 <= y < high@.len() ==> pair_done(
                    #[trigger] low@[z],
                    #[trigger] high@[y],
                    *next,
                ),
            forall|z: int|
                0 <= z < low@.len() ==> #[trigger] used_low@[z] == (start_low[z] || (z < x
                    && partner_in(low@[z].row@, high@, high@.len() as int))),
            forall|y: int|
                0 <= y < high@.len() ==> #[trigger] used_high@[y] == (start_high[y] || partner_in(
                    high@[y].row@,
                    low@,
                    x as int,
                )),
        decreases low@.len() - x,
    {
        let mut y: usize = 0;
        while y < high.len()
            invariant
                x < low@.len(),
                y <= high@.len(),
                implicants(low@, outputs, variable_count),
                implicants(high@, outputs, variable_count),
                forall|z: int|
                    0 <= z < low@.len() ==> count_of(
                        (#[trigger] low@[z]).row@,
                        VariableState::Factored,
                    ) == factored,
                generation(*next, outputs, variable_count, factored + 1),
                grows(start, *next),
                used_low@.len() == low@.len(),
                used_high@.len() == high@.len(),
                start_low.len() == low@.len(),
                start_high.len() == high@.len(),
                forall|z: int, w: int|
                    0 <= z < x && 0 <= w < high@.len() ==> pair_done(
                        #[trigger] low@[z],
                        #[trigger] high@[w],
                        *next,
                    ),
                forall|w: int| 0 <= w < y ==> pair_done(low@[x as int], #[trigger] high@[w], *next),
                forall|z: int|
                    0 <= z < low@.len() ==> #[trigger] used_low@[z] == (start_low[z] || (z < x
                        && partner_in(low@[z].row@, high@, high@.len() as int)) || (z == x
                        && partner_in(low@[z].row@, high@, y as int))),
                forall|w: int|
                    0 <= w < high@.len() ==> #[trigger] used_high@[w] == (start_high[w]
                        || partner_in(high@[w].row@, low@, x as int) || (w < y && combinable(
                        high@[w].row@,
                        low@[x as int].row@,
                    ))),
            decreases high@.len() - y,
        {
            let ghost before = *next;
            let ghost low_before = used_low@;
            let ghost high_before = used_high@;
            let first = &low[x];
            let second = &high[y];
            assert(implicant_of(low@[x as int], outputs, variable_count));
            assert(implicant_of(high@[y as int], outputs, variable_count));
            proof {
                lemma_grows_reflexive(before);
            }
            match first.reduce(second) {
                Some(combined) => {
                    proof {
                        lemma_combination(*first, *second, combined, outputs, variable_count);
                        let p = choose|p: int| #[trigger] differ_only_at(first.row@, second.row@, p);
                        lemma_merged(first.row@, second.row@, p);
                        assert(combinable(second.row@, first.row@));
                    }
                    add_row(next, combined);
                    proof {
                        assert(group_of(
                            before.steps@[combined.true_count as int]@,
                            outputs,
                            variable_count,
                            factored + 1,
                            combined.true_count as int,
                        ));
                        assert forall|b: int| 0 <= b < next.steps@.len() implies group_of(
                            (#[trigger] next.steps@[b])@,
                            outputs,
                            variable_count,
                            factored + 1,
                            b,
                        ) by {
                            assert(group_of(
                                before.steps@[b]@,
                                outputs,
                                variable_count,
                                factored + 1,
                                b,
                            ));
                            assert forall|k: int| 0 <= k < next.steps@[b]@.len() implies {
                                &&& implicant_of(
                                    #[trigger] next.steps@[b]@[k],
                                    outputs,
                                    variable_count,
                                )
                                &&& count_of(next.steps@[b]@[k].row@, VariableState::Factored)
                                    == factored + 1
                                &&& next.steps@[b]@[k].true_count == b
                            } by {
                                if b != combined.true_count {
                                    assert(next.steps@[b] == before.steps@[b]);
                                } else if k < before.steps@[b]@.len() {
                                    assert(next.steps@[b]@[k] == before.steps@[b]@[k]);
                                }
                            }
                        }
                        assert(holds_states(*next, merged(first.row@, second.row@)));
                    }
                    used_low[x] = true;
                    used_high[y] = true;
                },
                None => {
                    proof {
                        if combinable(second.row@, first.row@) {
                            let p = choose|p: int| #[trigger]
                                differ_only_at(second.row@, first.row@, p);
                            lemma_merged(second.row@, first.row@, p);
                        }
                    }
                },
            }
            proof {
                lemma_grows_transitive(start, before, *next);
                assert forall|z: int, w: int|
                    0 <= z < x && 0 <= w < high@.len() implies pair_done(
                    #[trigger] low@[z],
                    #[trigger] high@[w],
                    *next,
                ) by {
                    assert(pair_done(low@[z], high@[w], before));
                    if combinable(low@[z].row@, high@[w].row@) {
                        lemma_grows(before, *next, merged(low@[z].row@, high@[w].row@));
                    }
                }
                assert forall|w: int| 0 <= w < y + 1 implies pair_done(
                    low@[x as int],
                    #[trigger] high@[w],
                    *next,
                ) by {
                    if w < y {
                        assert(pair_done(low@[x as int], high@[w], before));
                        if combinable(low@[x as int].row@, high@[w].row@) {
                            lemma_grows(before, *next, merged(low@[x as int].row@, high@[w].row@));
                        }
                    }
                }
                assert forall|z: int| 0 <= z < low@.len() implies #[trigger] used_low@[z] == (
                start_low[z] || (z < x && partner_in(low@[z].row@, high@, high@.len() as int)) || (z
                    == x && partner_in(low@[z].row@, high@, y + 1))) by {
                    if z == x {
                        let states = low@[x as int].row@;
                        if partner_in(states, high@, y + 1) {
                            let w = choose|w: int|
                                0 <= w < y + 1 && w < high@.len() && combinable(
                                    states,
                                    (#[trigger] high@[w]).row@,
                                );
                            if w < y {
                                assert(partner_in(states, high@, y as int));
                            }
                        }
                        if partner_in(states, high@, y as int) {
                            let w = choose|w: int|
                                0 <= w < y && w < high@.len() && combinable(
                                    states,
                                    (#[trigger] high@[w]).row@,
                                );
                            assert(0 <= w < y + 1 && combinable(states, high@[w].row@));
                        }
                        if combinable(states, high@[y as int].row@) {
                            assert(partner_in(states, high@, y + 1));
                        }
                    } else {
                        assert(used_low@[z] == low_before[z]);
                    }
                }
                assert forall|w: int| 0 <= w < high@.len() implies #[trigger] used_high@[w] == (
                start_high[w] || partner_in(high@[w].row@, low@, x as int) || (w < y + 1
                    && combinable(high@[w].row@, low@[x as int].row@))) by {
                    if w != y {
                        assert(used_high@[w] == high_before[w]);
                    }
                }
            }
            y += 1;
        }
        proof {
            assert forall|w: int| 0 <= w < high@.len() implies #[trigger] used_high@[w] == (
            start_high[w] || partner_in(high@[w].row@, low@, x + 1)) by {
                let states = high@[w].row@;
                if partner_in(states, low@, x + 1) {
                    let z = choose|z: int|
                        0 <= z < x + 1 && z < low@.len() && combinable(
                            states,
                            (#[trigger] low@[z]).row@,
                        );
                    if z < x {
                        assert(partner_in(states, low@, x as int));
                    }
                }
                if partner_in(states, low@, x as int) {
                    let z = choose|z: int|
                        0 <= z < x && z < low@.len() && combinable(
                            states,
                            (#[trigger] low@[z]).row@,
                        );
                    assert(0 <= z < x + 1 && combinable(states, low@[z].row@));
                }
                if combinable(states, low@[x as int].row@) {
                    assert(partner_in(states, low@, x + 1));
                }
            }
        }
        x += 1;
    }
}

/// Adds to `primes` a copy of every implicant of `group` that is not flagged
/// as used, unless an implicant with the same states is there already.
fn extract_primes(
    group: &Vec<QMStepRow>,
    used: &Vec<bool>,
    primes: &mut Vec<QMStepRow>,
    Ghost(outputs): Ghost<Seq<bool>>,
    Ghost(variable_count): Ghost<nat>,
)
    requires
        used@.len() == group@.len(),
        implicants(group@, outputs, variable_count),
        forall|x: int|
            0 <= x < group@.len() && !used@[x] ==> is_prime((#[trigger] group@[x]).row@, outputs),
        prime_list(old(primes)@, outputs, variable_count),
    ensures
        prime_list(final(primes)@, outputs, variable_count),
        forall|states: Seq<VariableState>|
            has_states(old(primes)@, states) ==> has_states(final(primes)@, states),
        forall|x: int|
            0 <= x < group@.len() && !used@[x] ==> has_states(
                final(primes)@,
                (#[trigger] group@[x]).row@,
            ),
{
    let ghost start = primes@;
    let mut x: usize = group.len();
    while x > 0
        invariant
            x <= group@.len(),
            used@.len() == group@.len(),
            implicants(group@, outputs, variable_count),
            forall|z: int|
                0 <= z < group@.len() && !used@[z] ==> is_prime(
                    (#[trigger] group@[z]).row@,
                    outputs,
                ),
            prime_list(primes@, outputs, variable_count),
            start.len() <= primes@.len(),
            forall|k: int| 0 <= k < start.len() ==> #[trigger] primes@[k] == start[k],
            forall|z: int|
                x <= z < group@.len() && !used@[z] ==> has_states(
                    primes@,
                    (#[trigger] group@[z]).row@,
                ),
        decreases x,
    {
        x -= 1;
        if !used[x] {
            let ghost before = primes@;
            assert(implicant_of(group@[x as int], outputs, variable_count));
            let prime = group[x].duplicate();
            assert(implicant_of(prime, outputs, variable_count));
            if !contains_row(primes, &prime) {
                primes.push(prime);
                assert(primes@[before.len() as int].row@ == group@[x as int].row@);
                assert forall|i: int, j: int| 0 <= i < j < primes@.len() implies (
                #[trigger] primes@[i]).row@ != (#[trigger] primes@[j]).row@ by {
                    if j < before.len() {
                        assert(primes@[i] == before[i] && primes@[j] == before[j]);
                    } else {
                        assert(primes@[i] == before[i]);
                    }
                }
            } else {
                proof {
                    let k = choose|k: int|
                        0 <= k < primes@.len() && (#[trigger] primes@[k]).row@ == prime.row@;
                    assert(primes@[k].row@ == group@[x as int].row@);
                }
            }
            assert forall|z: int| x <= z < group@.len() && !used@[z] implies has_states(
                primes@,
                (#[trigger] group@[z]).row@,
            ) by {
                if z > x {
                    let k = choose|k: int|
                        0 <= k < before.len() && (#[trigger] before[k]).row@ == group@[z].row@;
                    assert(primes@[k] == before[k]);
                }
            }
        }
    }
    assert forall|states: Seq<VariableState>| has_states(start, states) implies has_states(
        primes@,
        states,
    ) by {
        let k = choose|k: int| 0 <= k < start.len() && (#[trigger] start[k]).row@ == states;
        assert(primes@[k] == start[k]);
    }
}

/// One generation step: every implicant of a group is tried against every
/// implicant of the next group; what two of them combine to goes to the next
/// generation, and the implicants that combined with none, the prime
/// implicants of this generation, are added to `primes`.
fn combine_step(
    current: &AllQMSteps,
    primes: &mut Vec<QMStepRow>,
    Ghost(outputs): Ghost<Seq<bool>>,
    Ghost(factored): Ghost<nat>,
) -> (next: AllQMSteps)
    requires
        current.steps@.len() >= 1,
        generation(*current, outputs, (current.steps@.len() - 1) as nat, factored),
        complete(*current, outputs, (current.steps@.len() - 1) as nat, factored),
        prime_list(old(primes)@, outputs, (current.steps@.len() - 1) as nat),
        primes_below(old(primes)@, outputs, (current.steps@.len() - 1) as nat, factored),
    ensures
        generation(next, outputs, (current.steps@.len() - 1) as nat, factored + 1),
        complete(next, outputs, (current.steps@.len() - 1) as nat, factored + 1),
        prime_list(final(primes)@, outputs, (current.steps@.len() - 1) as nat),
        primes_below(final(primes)@, outputs, (current.steps@.len() - 1) as nat, factored + 1),
{
    let count = current.steps.len();
    let ghost n = (count - 1) as nat;
    let ghost start_primes = primes@;
    let mut next = AllQMSteps::new(count - 1);
    let mut used_low = cleared_flags(current.steps[0].len());
    let mut i: usize = 0;
    while i < count
        invariant
            i <= count,
            count == current.steps@.len(),
            n == count - 1,
            generation(*current, outputs, n, factored),
            complete(*current, outputs, n, factored),
            generation(next, outputs, n, factored + 1),
            prime_list(primes@, outputs, n),
            forall|states: Seq<VariableState>|
                has_states(start_primes, states) ==> has_states(primes@, states),
            forall|b: int, x: int, y: int|
                0 <= b < i && b + 1 < count && 0 <= x < current.steps@[b]@.len() && 0 <= y
                    < current.steps@[b + 1]@.len() ==> pair_done(
                    #[trigger] current.steps@[b]@[x],
                    #[trigger] current.steps@[b + 1]@[y],
                    next,
                ),
            forall|b: int, x: int|
                0 <= b < i && 0 <= x < current.steps@[b]@.len() && is_prime(
                    (#[trigger] current.steps@[b]@[x]).row@,
                    outputs,
                ) ==> has_states(primes@, current.steps@[b]@[x].row@),
            i < count ==> used_low@.len() == current.steps@[i as int]@.len(),
            i < count ==> forall|x: int|
                0 <= x < current.steps@[i as int]@.len() ==> #[trigger] used_low@[x] == (i > 0
                    && partner_in(
                    current.steps@[i as int]@[x].row@,
                    current.steps@[i - 1]@,
                    current.steps@[i - 1]@.len() as int,
                )),
        decreases count - i,
    {
        let ghost next_before = next;
        let ghost primes_before = primes@;
        let ghost low_before = used_low@;
        assert(group_of(current.steps@[i as int]@, outputs, n, factored, i as int));
        let mut used_high = if i + 1 < count {
            cleared_flags(current.steps[i + 1].len())
        } else {
            Vec::<bool>::new()
        };
        if i + 1 < count {
            assert(group_of(current.steps@[i + 1]@, outputs, n, factored, i + 1));
            combine_groups(
                &current.steps[i],
                &current.steps[i + 1],
                &mut next,
                &mut used_low,
                &mut used_high,
                Ghost(outputs),
                Ghost(n),
                Ghost(factored),
            );
        }
        proof {
            assert forall|x: int|
                0 <= x < current.steps@[i as int]@.len() && !used_low@[x] implies is_prime(
                (#[trigger] current.steps@[i as int]@[x]).row@,
                outputs,
            ) by {
                lemma_prime_has_no_partner(*current, outputs, n, factored, i as int, x);
                assert(used_low@[x] == (low_before[x] || (i + 1 < count && partner_in(
                    current.steps@[i as int]@[x].row@,
                    current.steps@[i + 1]@,
                    current.steps@[i + 1]@.len() as int,
                ))));
            }
        }
        extract_primes(&current.steps[i], &used_low, primes, Ghost(outputs), Ghost(n));
        proof {
            assert forall|b: int, x: int, y: int|
                0 <= b < i + 1 && b + 1 < count && 0 <= x < current.steps@[b]@.len() && 0 <= y
                    < current.steps@[b + 1]@.len() implies pair_done(
                #[trigger] current.steps@[b]@[x],
                #[trigger] current.steps@[b + 1]@[y],
                next,
            ) by {
                if b < i {
                    assert(pair_done(current.steps@[b]@[x], current.steps@[b + 1]@[y], next_before));
                    if combinable(current.steps@[b]@[x].row@, current.steps@[b + 1]@[y].row@) {
                        if i + 1 < count {
                            lemma_grows(
                                next_before,
                                next,
                                merged(current.steps@[b]@[x].row@, current.steps@[b + 1]@[y].row@),
                            );
                        }
                    }
                }
            }
            assert forall|b: int, x: int|
                0 <= b < i + 1 && 0 <= x < current.steps@[b]@.len() && is_prime(
                    (#[trigger] current.steps@[b]@[x]).row@,
                    outputs,
                ) implies has_states(primes@, current.steps@[b]@[x].row@) by {
                if b < i {
                    assert(has_states(primes_before, current.steps@[b]@[x].row@));
                } else {
                    lemma_prime_has_no_partner(*current, outputs, n, factored, i as int, x);
                    assert(used_low@[x] == (low_before[x] || (i + 1 < count && partner_in(
                        current.steps@[i as int]@[x].row@,
                        current.steps@[i + 1]@,
                        current.steps@[i + 1]@.len() as int,
                    ))));
                    assert(!used_low@[x]);
                }
            }
            assert forall|states: Seq<VariableState>| has_states(start_primes, states) implies has_states(
                primes@,
                states,
            ) by {
                assert(has_states(primes_before, states));
            }
        }
        used_low = used_high;
        i += 1;
    }
    proof {
        lemma_next_complete(*current, next, outputs, n, factored);
        assert forall|states: Seq<VariableState>|
            states.len() == n && count_of(states, VariableState::Factored) < factored + 1
                && #[trigger] is_prime(states, outputs) implies has_states(primes@, states) by {
            if count_of(states, VariableState::Factored) < factored {
                assert(has_states(start_primes, states));
            } else {
                assert(holds_states(*current, states));
                let b = count_of(states, VariableState::True) as int;
                let x = choose|x: int|
                    0 <= x < current.steps@[b]@.len() && (#[trigger] current.steps@[b]@[x]).row@
                        == states;
                assert(has_states(primes@, current.steps@[b]@[x].row@));
            }
        }
    }
    next
}

/// The prime implicants of the truth table `table` over `variable_count`
/// variables, found by combining implicants until none combines any
/// further: each once, and each with the table rows that agree with it.
pub fn prime_implicants(table: &Vec<Vec<bool>>, variable_count: usize) -> (primes: Vec<QMStepRow>)
    requires
        variable_count < usize::MAX,
        enumerates_inputs(table@, variable_count as nat),
    ensures
        prime_list(primes@, output_column(table@, variable_count as int), variable_count as nat),
        forall|states: Seq<VariableState>|
            states.len() == variable_count && #[trigger] is_prime(
                states,
                output_column(table@, variable_count as int),
            ) ==> has_states(primes@, states),
{
    let ghost outputs = output_column(table@, variable_count as int);
    let ghost n = variable_count as nat;
    let mut qm_steps = initial_steps(table, variable_count);
    let mut primes = Vec::<QMStepRow>::new();
    let mut factored: usize = 0;
    loop
        invariant
            variable_count < usize::MAX,
            n == variable_count,
            factored <= variable_count + 1,
            generation(qm_steps, outputs, n, factored as nat),
            complete(qm_steps, outputs, n, factored as nat),
            prime_list(primes@, outputs, n),
            primes_below(primes@, outputs, n, factored as nat),
        ensures
            forall|b: int|
                0 <= b < qm_steps.steps@.len() ==> (#[trigger] qm_steps.steps@[b])@.len() == 0,
        decreases variable_count + 1 - factored,
    {
        if qm_steps.is_empty() {
            break;
        }
        proof {
            let b = choose|b: int|
                0 <= b < qm_steps.steps@.len() && (#[trigger] qm_steps.steps@[b])@.len() != 0;
            let row = qm_steps.steps@[b]@[0];
            assert(group_of(qm_steps.steps@[b]@, outputs, n, factored as nat, b));
            assert(implicant_of(row, outputs, n));
            lemma_count_bound(row.row@, VariableState::Factored);
        }
        qm_steps = combine_step(&qm_steps, &mut primes, Ghost(outputs), Ghost(factored as nat));
        factored += 1;
    }
    proof {
        assert forall|states: Seq<VariableState>|
            states.len() == n && #[trigger] is_prime(states, outputs) implies has_states(
            primes@,
            states,
        ) by {
            if count_of(states, VariableState::Factored) >= factored {
                let fewer = lemma_fewer_factored(states, outputs, factored as nat);
                assert(holds_states(qm_steps, fewer));
            }
        }
    }
    primes
}

} // verus!
