//! Implicant rows of the Quine-McCluskey method and how two of them combine.

use crate::bits::bit;
use vstd::prelude::*;

verus! {

/// What an implicant says of one variable.
#[derive(Debug, PartialEq, Eq, Clone, Copy, Hash, Structural)]
pub enum VariableState {
    /// The variable is false.
    False,
    /// The variable is true.
    True,
    /// The variable was eliminated: the implicant holds whatever its value.
    Factored,
}

/// An implicant: one state per variable, the number of `True` states, and the
/// indices of the truth-table rows that it was combined from.
#[derive(Debug)]
pub struct QMStepRow {
    pub row: Vec<VariableState>,
    pub true_count: usize,
    pub covered_rows: Vec<usize>,
}

/// The implicants of one generation, grouped by their number of `True` states.
#[derive(Debug)]
pub struct AllQMSteps {
    pub steps: Vec<Vec<QMStepRow>>,
}

/// How many of `states` are `state`.
pub open spec fn count_of(states: Seq<VariableState>, state: VariableState) -> nat
    decreases states.len(),
{
    if states.len() == 0 {
        0
    } else {
        count_of(states.drop_last(), state) + if states.last() == state {
            1nat
        } else {
            0nat
        }
    }
}

/// Whether the truth-table row `index` agrees with `states`: its bit is set
/// where the state is `True` and clear where it is `False`.
pub open spec fn row_matches(states: Seq<VariableState>, index: int) -> bool {
    forall|j: int|
        0 <= j < states.len() ==> match #[trigger] states[j] {
            VariableState::True => bit(index, j),
            VariableState::False => !bit(index, j),
            VariableState::Factored => true,
        }
}

/// `first` and `second` have the same length and differ at `position` alone,
/// where neither is `Factored`.
pub open spec fn differ_only_at(
    first: Seq<VariableState>,
    second: Seq<VariableState>,
    position: int,
) -> bool {
    &&& first.len() == second.len()
    &&& 0 <= position < first.len()
    &&& first[position] != second[position]
    &&& first[position] != VariableState::Factored
    &&& second[position] != VariableState::Factored
    &&& forall|j: int| 0 <= j < first.len() && j != position ==> first[j] == second[j]
}

/// `combined` is what `first` and `second` combine to: they differ at one
/// position alone, which is `Factored` in `combined`, and `combined` covers
/// the rows of `first` followed by those of `second`.
pub open spec fn combines(first: QMStepRow, second: QMStepRow, combined: QMStepRow) -> bool {
    exists|position: int|
        {
            &&& #[trigger] differ_only_at(first.row@, second.row@, position)
            &&& combined.row@ == first.row@.update(position, VariableState::Factored)
            &&& combined.true_count == count_of(combined.row@, VariableState::True)
            &&& combined.covered_rows@ == first.covered_rows@ + second.covered_rows@
        }
}

/// A count of states is at most the number of states.
pub proof fn lemma_count_bound(states: Seq<VariableState>, state: VariableState)
    ensures
        count_of(states, state) <= states.len(),
    decreases states.len(),
{
    if states.len() > 0 {
        lemma_count_bound(states.drop_last(), state);
    }
}

/// No state is counted where none is `state`.
pub proof fn lemma_count_none(states: Seq<VariableState>, state: VariableState)
    requires
        forall|j: int| 0 <= j < states.len() ==> states[j] != state,
    ensures
        count_of(states, state) == 0,
    decreases states.len(),
{
    if states.len() > 0 {
        lemma_count_none(states.drop_last(), state);
    }
}

/// Replacing one state changes each count by what left and what came.
pub proof fn lemma_count_update(
    states: Seq<VariableState>,
    position: int,
    new: VariableState,
    state: VariableState,
)
    requires
        0 <= position < states.len(),
    ensures
        count_of(states.update(position, new), state) + (if states[position] == state {
            1nat
        } else {
            0nat
        }) == count_of(states, state) + (if new == state {
            1nat
        } else {
            0nat
        }),
    decreases states.len(),
{
    let updated = states.update(position, new);
    if position == states.len() - 1 {
        assert(updated.drop_last() =~= states.drop_last());
    } else {
        assert(updated.drop_last() =~= states.drop_last().update(position, new));
        lemma_count_update(states.drop_last(), position, new, state);
    }
}

/// A combined implicant agrees with exactly the rows that one of the two
/// implicants it was combined from agrees with.
pub proof fn lemma_combined_matches(
    first: Seq<VariableState>,
    second: Seq<VariableState>,
    position: int,
    index: int,
)
    requires
        differ_only_at(first, second, position),
    ensures
        row_matches(first.update(position, VariableState::Factored), index) <==> row_matches(
            first,
            index,
        ) || row_matches(second, index),
{
    let combined = first.update(position, VariableState::Factored);
    if row_matches(combined, index) {
        let matches_first = match first[position] {
            VariableState::True => bit(index, position),
            _ => !bit(index, position),
        };
        if matches_first {
            assert forall|j: int| 0 <= j < first.len() implies match #[trigger] first[j] {
                VariableState::True => bit(index, j),
                VariableState::False => !bit(index, j),
                VariableState::Factored => true,
            } by {
                if j != position {
                    assert(combined[j] == first[j]);
                }
            }
        } else {
            assert forall|j: int| 0 <= j < second.len() implies match #[trigger] second[j] {
                VariableState::True => bit(index, j),
                VariableState::False => !bit(index, j),
                VariableState::Factored => true,
            } by {
                if j != position {
                    assert(combined[j] == first[j]);
                    assert(first[j] == second[j]);
                }
            }
        }
    }
    if row_matches(first, index) {
        assert forall|j: int| 0 <= j < combined.len() implies match #[trigger] combined[j] {
            VariableState::True => bit(index, j),
            VariableState::False => !bit(index, j),
            VariableState::Factored => true,
        } by {
            if j != position {
                assert(combined[j] == first[j]);
            }
        }
    }
    if row_matches(second, index) {
        assert forall|j: int| 0 <= j < combined.len() implies match #[trigger] combined[j] {
            VariableState::True => bit(index, j),
            VariableState::False => !bit(index, j),
            VariableState::Factored => true,
        } by {
            if j != position {
                assert(combined[j] == first[j]);
                assert(first[j] == second[j]);
            }
        }
    }
}

/// Whether `index` is among `indices`.
pub fn contains_index(indices: &Vec<usize>, index: usize) -> (found: bool)
    ensures
        found == indices@.contains(index),
{
    let mut i: usize = 0;
    while i < indices.len()
        invariant
            i <= indices@.len(),
            forall|k: int| 0 <= k < i ==> indices@[k] != index,
        decreases indices@.len() - i,
    {
        if indices[i] == index {
            return true;
        }
        i += 1;
    }
    false
}

/// Whether one of `rows` has the states of `row`.
pub fn contains_row(rows: &Vec<QMStepRow>, row: &QMStepRow) -> (found: bool)
    ensures
        found == exists|k: int| 0 <= k < rows@.len() && (#[trigger] rows@[k]).row@ == row.row@,
{
    let mut i: usize = 0;
    while i < rows.len()
        invariant
            i <= rows@.len(),
            forall|k: int| 0 <= k < i ==> (#[trigger] rows@[k]).row@ != row.row@,
        decreases rows@.len() - i,
    {
        if rows[i].same_states(row) {
            return true;
        }
        i += 1;
    }
    false
}

impl PartialEq for QMStepRow {
    /// Two implicants are equal when they have the same states, whatever they cover.
    fn eq(&self, other: &QMStepRow) -> (equal: bool) {
        self.same_states(other)
    }
}

impl vstd::std_specs::cmp::PartialEqSpecImpl for QMStepRow {
    open spec fn obeys_eq_spec() -> bool {
        true
    }

    open spec fn eq_spec(&self, other: &QMStepRow) -> bool {
        self.row@ == other.row@
    }
}

impl QMStepRow {
    /// Whether the two implicants have the same states. What they cover does not count.
    pub fn same_states(&self, other: &QMStepRow) -> (same: bool)
        ensures
            same == (self.row@ == other.row@),
    {
        if self.row.len() != other.row.len() {
            return false;
        }
        let mut i: usize = 0;
        while i < self.row.len()
            invariant
                i <= self.row@.len(),
                self.row@.len() == other.row@.len(),
                forall|k: int| 0 <= k < i ==> self.row@[k] == other.row@[k],
            decreases self.row@.len() - i,
        {
            if self.row[i] != other.row[i] {
                return false;
            }
            i += 1;
        }
        assert(self.row@ =~= other.row@);
        true
    }

    /// A copy of the implicant.
    pub fn duplicate(&self) -> (copy: QMStepRow)
        ensures
            copy.row@ == self.row@,
            copy.true_count == self.true_count,
            copy.covered_rows@ == self.covered_rows@,
    {
        let mut row = Vec::<VariableState>::new();
        let mut i: usize = 0;
        while i < self.row.len()
            invariant
                i <= self.row@.len(),
                row@ == self.row@.take(i as int),
            decreases self.row@.len() - i,
        {
            row.push(self.row[i]);
            assert(self.row@.take(i + 1) =~= self.row@.take(i as int).push(self.row@[i as int]));
            i += 1;
        }
        assert(self.row@.take(self.row@.len() as int) =~= self.row@);
        let mut covered_rows = Vec::<usize>::new();
        let mut k: usize = 0;
        while k < self.covered_rows.len()
            invariant
                k <= self.covered_rows@.len(),
                covered_rows@ == self.covered_rows@.take(k as int),
            decreases self.covered_rows@.len() - k,
        {
            covered_rows.push(self.covered_rows[k]);
            assert(self.covered_rows@.take(k + 1) =~= self.covered_rows@.take(k as int).push(
                self.covered_rows@[k as int],
            ));
            k += 1;
        }
        assert(self.covered_rows@.take(self.covered_rows@.len() as int) =~= self.covered_rows@);
        QMStepRow { row, true_count: self.true_count, covered_rows }
    }

    /// Combines two implicants of the same length that differ in the state of
    /// one variable alone, neither state being `Factored`: the result has that
    /// variable `Factored` and covers the rows of both. Any other pair gives `None`.
    pub fn reduce(&self, other: &QMStepRow) -> (combined: Option<QMStepRow>)
        ensures
            combined is Some <==> exists|position: int| #[trigger]
                differ_only_at(self.row@, other.row@, position),
            combined matches Some(c) ==> combines(*self, *other, c),
    {
        if self.row.len() != other.row.len() {
            return None;
        }
        let mut diff_column: Option<usize> = None;
        let mut i: usize = 0;
        while i < self.row.len()
            invariant
                i <= self.row@.len(),
                self.row@.len() == other.row@.len(),
                match diff_column {
                    None => forall|j: int| 0 <= j < i ==> self.row@[j] == other.row@[j],
                    Some(p) => p < i && self.row@[p as int] != other.row@[p as int] && forall|j: int|
                        0 <= j < i && j != p ==> self.row@[j] == other.row@[j],
                },
            decreases self.row@.len() - i,
        {
            if self.row[i] != other.row[i] {
                match diff_column {
                    Some(p) => {
                        assert forall|position: int| !#[trigger]
                            differ_only_at(self.row@, other.row@, position) by {
                            if position == p {
                                assert(self.row@[i as int] != other.row@[i as int]);
                            } else {
                                assert(self.row@[p as int] != other.row@[p as int]);
                            }
                        }
                        return None;
                    },
                    None => {
                        diff_column = Some(i);
                    },
                }
            }
            i += 1;
        }
        let position = match diff_column {
            None => {
                assert(forall|position: int| !#[trigger]
                    differ_only_at(self.row@, other.row@, position));
                return None;
            },
            Some(p) => p,
        };
        if self.row[position] == VariableState::Factored || other.row[position]
            == VariableState::Factored {
            assert forall|p: int| !#[trigger] differ_only_at(self.row@, other.row@, p) by {
                if p != position {
                    assert(self.row@[position as int] != other.row@[position as int]);
                }
            }
            return None;
        }
        assert(differ_only_at(self.row@, other.row@, position as int));
        let mut row = Vec::<VariableState>::new();
        let mut true_count: usize = 0;
        let mut j: usize = 0;
        while j < self.row.len()
            invariant
                j <= self.row@.len(),
                position < self.row@.len(),
                row@ == self.row@.update(position as int, VariableState::Factored).take(j as int),
                true_count == count_of(row@, VariableState::True),
                true_count <= j,
            decreases self.row@.len() - j,
        {
            let state = if j == position {
                VariableState::Factored
            } else {
                self.row[j]
            };
            let ghost before = row@;
            row.push(state);
            assert(row@.drop_last() =~= before);
            assert(self.row@.update(position as int, VariableState::Factored).take(j + 1)
                =~= self.row@.update(position as int, VariableState::Factored).take(j as int).push(
                state,
            ));
            if state == VariableState::True {
                true_count += 1;
            }
            j += 1;
        }
        assert(self.row@.update(position as int, VariableState::Factored).take(
            self.row@.len() as int,
        ) =~= self.row@.update(position as int, VariableState::Factored));
        let mut covered_rows = Vec::<usize>::new();
        let mut k: usize = 0;
        while k < self.covered_rows.len()
            invariant
                k <= self.covered_rows@.len(),
                covered_rows@ == self.covered_rows@.take(k as int),
            decreases self.covered_rows@.len() - k,
        {
            covered_rows.push(self.covered_rows[k]);
            assert(self.covered_rows@.take(k + 1) =~= self.covered_rows@.take(k as int).push(
                self.covered_rows@[k as int],
            ));
            k += 1;
        }
        assert(self.covered_rows@.take(self.covered_rows@.len() as int) =~= self.covered_rows@);
        let mut m: usize = 0;
        while m < other.covered_rows.len()
            invariant
                m <= other.covered_rows@.len(),
                covered_rows@ == self.covered_rows@ + other.covered_rows@.take(m as int),
            decreases other.covered_rows@.len() - m,
        {
            covered_rows.push(other.covered_rows[m]);
            assert(self.covered_rows@ + other.covered_rows@.take(m + 1) =~= (self.covered_rows@
                + other.covered_rows@.take(m as int)).push(other.covered_rows@[m as int]));
            m += 1;
        }
        assert(other.covered_rows@.take(other.covered_rows@.len() as int) =~= other.covered_rows@);
        Some(QMStepRow { row, true_count, covered_rows })
    }
}

impl AllQMSteps {
    /// Empty groups for the implicants over `variable_count` variables: one
    /// for each possible number of `True` states, from none to all.
    pub fn new(variable_count: usize) -> (all: AllQMSteps)
        requires
            variable_count < usize::MAX,
        ensures
            all.steps@.len() == variable_count + 1,
            forall|i: int| 0 <= i < all.steps@.len() ==> (#[trigger] all.steps@[i])@.len() == 0,
    {
        let mut steps = Vec::<Vec<QMStepRow>>::new();
        let mut i: usize = 0;
        while i < variable_count + 1
            invariant
                i <= variable_count + 1,
                variable_count < usize::MAX,
                steps@.len() == i,
                forall|k: int| 0 <= k < steps@.len() ==> (#[trigger] steps@[k])@.len() == 0,
            decreases variable_count + 1 - i,
        {
            steps.push(Vec::<QMStepRow>::new());
            i += 1;
        }
        AllQMSteps { steps }
    }

    /// Whether no group holds an implicant.
    pub fn is_empty(&self) -> (empty: bool)
        ensures
            empty == forall|i: int|
                0 <= i < self.steps@.len() ==> (#[trigger] self.steps@[i])@.len() == 0,
    {
        let mut i: usize = 0;
        while i < self.steps.len()
            invariant
                i <= self.steps@.len(),
                forall|k: int| 0 <= k < i ==> (#[trigger] self.steps@[k])@.len() == 0,
            decreases self.steps@.len() - i,
        {
            if self.steps[i].len() != 0 {
                return false;
            }
            i += 1;
        }
        true
    }
}

} // verus!
