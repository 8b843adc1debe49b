//! Boolean expressions over test identifiers, their meaning and their variables.

use vstd::prelude::*;

verus! {

/// How an expression combines its operands.
#[derive(Debug, PartialEq, Eq)]
pub enum Operator {
    Or,
    And,
}

/// One input of an expression: a test, a nested expression, or the negation of either.
#[derive(Debug, PartialEq, Eq)]
pub enum Operand {
    /// True iff the test with this identifier passed.
    Test(i32),
    /// True iff the test with this identifier failed.
    NotTest(i32),
    /// True iff the nested expression is true.
    Expression(Expression),
    /// True iff the nested expression is false.
    NotExpression(Expression),
}

/// An operator applied to an ordered list of operands. The tree owns its children.
#[derive(Debug, PartialEq, Eq)]
pub struct Expression {
    pub operator: Operator,
    pub operands: Vec<Operand>,
}

/// The assignment that an indexed list of outcomes and an identifier-to-index
/// table stand for: test `id` has the outcome stored at `variable_to_index[id]`.
pub open spec fn indexed_assignment(results: Seq<bool>, variable_to_index: Seq<usize>) -> spec_fn(
    i32,
) -> bool {
    |id: i32| results[variable_to_index[id as int] as int]
}

/// `operand` is a nested conjunction whose operands are `literals`.
pub open spec fn is_conjunction_of(operand: Operand, literals: Seq<Operand>) -> bool {
    match operand {
        Operand::Expression(e) => e.operator is And && e.operands@ == literals,
        _ => false,
    }
}

/// `ids` appended to `acc`, leaving out every identifier that is already there.
pub open spec fn append_new(acc: Seq<i32>, ids: Seq<i32>) -> Seq<i32>
    decreases ids.len(),
{
    if ids.len() == 0 {
        acc
    } else {
        let before = append_new(acc, ids.drop_last());
        if before.contains(ids.last()) {
            before
        } else {
            before.push(ids.last())
        }
    }
}

/// The distinct identifiers of the first `count` operands, in order of first occurrence.
pub open spec fn operand_variables(operands: Seq<Operand>, count: nat) -> Seq<i32>
    decreases operands, count,
{
    if count == 0 || count > operands.len() {
        Seq::empty()
    } else {
        append_new(
            operand_variables(operands, (count - 1) as nat),
            operands[count - 1].variable_seq(),
        )
    }
}

impl Operand {
    /// The truth value of the operand under an assignment of outcomes to tests.
    pub open spec fn holds(self, assignment: spec_fn(i32) -> bool) -> bool
        decreases self,
    {
        match self {
            Operand::Test(id) => assignment(id),
            Operand::NotTest(id) => !assignment(id),
            Operand::Expression(e) => e.holds(assignment),
            Operand::NotExpression(e) => !e.holds(assignment),
        }
    }

    /// Whether the test `id` occurs anywhere in the operand.
    pub open spec fn mentions(self, id: i32) -> bool
        decreases self,
    {
        match self {
            Operand::Test(v) => v == id,
            Operand::NotTest(v) => v == id,
            Operand::Expression(e) => e.mentions(id),
            Operand::NotExpression(e) => e.mentions(id),
        }
    }

    /// Whether no negation occurs anywhere in the operand.
    pub open spec fn positive(self) -> bool
        decreases self,
    {
        match self {
            Operand::Test(_) => true,
            Operand::NotTest(_) => false,
            Operand::Expression(e) => e.positive(),
            Operand::NotExpression(_) => false,
        }
    }

    /// The distinct identifiers of the operand, in order of first occurrence.
    pub open spec fn variable_seq(self) -> Seq<i32>
        decreases self,
    {
        match self {
            Operand::Test(v) => seq![v],
            Operand::NotTest(v) => seq![v],
            Operand::Expression(e) => e.variable_seq(),
            Operand::NotExpression(e) => e.variable_seq(),
        }
    }
}

impl Expression {
    /// The truth value of the expression under an assignment of outcomes to
    /// tests: a conjunction holds iff all operands hold (so the empty one
    /// holds), a disjunction iff some operand holds (so the empty one does not).
    pub open spec fn holds(self, assignment: spec_fn(i32) -> bool) -> bool
        decreases self,
    {
        match self.operator {
            Operator::And => forall|i: int|
                0 <= i < self.operands@.len() ==> (#[trigger] self.operands@[i]).holds(assignment),
            Operator::Or => exists|i: int|
                0 <= i < self.operands@.len() && (#[trigger] self.operands@[i]).holds(assignment),
        }
    }

    /// Whether the test `id` occurs anywhere in the expression.
    pub open spec fn mentions(self, id: i32) -> bool
        decreases self,
    {
        exists|i: int| 0 <= i < self.operands@.len() && (#[trigger] self.operands@[i]).mentions(id)
    }

    /// Whether no negation occurs anywhere in the expression.
    pub open spec fn positive(self) -> bool
        decreases self,
    {
        forall|i: int| 0 <= i < self.operands@.len() ==> (#[trigger] self.operands@[i]).positive()
    }

    /// Every identifier in the expression is a non-negative number.
    pub open spec fn well_formed(self) -> bool {
        forall|id: i32| #[trigger] self.mentions(id) ==> id >= 0
    }

    /// The distinct identifiers of the expression, in order of first occurrence.
    pub open spec fn variable_seq(self) -> Seq<i32>
        decreases self,
    {
        operand_variables(self.operands@, self.operands@.len())
    }

    /// Whether the assignment gives every test of the expression an outcome:
    /// its identifier has an entry in the table, which points into `results`.
    pub open spec fn covered_by(self, results: Seq<bool>, variable_to_index: Seq<usize>) -> bool {
        forall|id: i32| #[trigger]
            self.mentions(id) ==> 0 <= id < variable_to_index.len() && variable_to_index[id as int]
                < results.len()
    }

    /// The distinct identifiers of the tests that the expression refers to, at
    /// any depth, each once and in order of first occurrence.
    pub fn variables(&self) -> (vars: Vec<i32>)
        ensures
            vars@ == self.variable_seq(),
            vars@.no_duplicates(),
            forall|id: i32| vars@.contains(id) <==> self.mentions(id),
        decreases self,
    {
        let mut vars = Vec::<i32>::new();
        let mut i: usize = 0;
        while i < self.operands.len()
            invariant
                i <= self.operands@.len(),
                vars@ == operand_variables(self.operands@, i as nat),
                vars@.no_duplicates(),
                forall|id: i32|
                    vars@.contains(id) <==> exists|k: int|
                        0 <= k < i && (#[trigger] self.operands@[k]).mentions(id),
            decreases self.operands@.len() - i,
        {
            let ghost before = vars@;
            match &self.operands[i] {
                Operand::Test(id) => {
                    push_new(&mut vars, *id);
                    assert forall|x: i32|
                        vars@.contains(x) <==> before.contains(x) || self.operands@[i as int].mentions(
                            x,
                        ) by {
                        assert(self.operands@[i as int].mentions(x) <==> x == *id);
                    }
                },
                Operand::NotTest(id) => {
                    push_new(&mut vars, *id);
                    assert forall|x: i32|
                        vars@.contains(x) <==> before.contains(x) || self.operands@[i as int].mentions(
                            x,
                        ) by {
                        assert(self.operands@[i as int].mentions(x) <==> x == *id);
                    }
                },
                Operand::Expression(e) => {
                    let inner = e.variables();
                    extend_new(&mut vars, &inner);
                    assert forall|x: i32|
                        vars@.contains(x) <==> before.contains(x) || self.operands@[i as int].mentions(
                            x,
                        ) by {
                        assert(self.operands@[i as int].mentions(x) <==> e.mentions(x));
                        assert(inner@.contains(x) <==> e.mentions(x));
                        assert(vars@.contains(x) <==> before.contains(x) || inner@.contains(x));
                    }
                },
                Operand::NotExpression(e) => {
                    let inner = e.variables();
                    extend_new(&mut vars, &inner);
                    assert forall|x: i32|
                        vars@.contains(x) <==> before.contains(x) || self.operands@[i as int].mentions(
                            x,
                        ) by {
                        assert(self.operands@[i as int].mentions(x) <==> e.mentions(x));
                        assert(inner@.contains(x) <==> e.mentions(x));
                        assert(vars@.contains(x) <==> before.contains(x) || inner@.contains(x));
                    }
                },
            }
            assert(vars@ == append_new(before, self.operands@[i as int].variable_seq()));
            assert forall|x: i32|
                vars@.contains(x) <==> exists|k: int|
                    0 <= k < i + 1 && (#[trigger] self.operands@[k]).mentions(x) by {
                assert(vars@.contains(x) <==> before.contains(x) || self.operands@[i as int].mentions(
                    x,
                ));
                if before.contains(x) {
                    let k = choose|k: int| 0 <= k < i && (#[trigger] self.operands@[k]).mentions(x);
                    assert(0 <= k < i + 1 && self.operands@[k].mentions(x));
                }
            }
            i += 1;
        }
        vars
    }

    /// Every identifier in the expression is at least zero and below `count`.
    pub open spec fn within(self, count: int) -> bool {
        forall|id: i32| #[trigger] self.mentions(id) ==> 0 <= id < count
    }

    /// Whether every identifier in the expression is a non-negative number.
    pub fn is_well_formed(&self) -> (well_formed: bool)
        ensures
            well_formed == self.well_formed(),
    {
        let variables = self.variables();
        let mut i: usize = 0;
        while i < variables.len()
            invariant
                i <= variables@.len(),
                forall|id: i32| variables@.contains(id) <==> self.mentions(id),
                forall|k: int| 0 <= k < i ==> #[trigger] variables@[k] >= 0,
            decreases variables@.len() - i,
        {
            if variables[i] < 0 {
                assert(variables@.contains(variables@[i as int]));
                assert(self.mentions(variables@[i as int]));
                return false;
            }
            i += 1;
        }
        assert forall|id: i32| #[trigger] self.mentions(id) implies id >= 0 by {
            assert(variables@.contains(id));
        }
        true
    }

    /// Whether every identifier in the expression is at least zero and below `count`.
    pub fn is_within(&self, count: usize) -> (within: bool)
        ensures
            within == self.within(count as int),
    {
        let variables = self.variables();
        let mut i: usize = 0;
        while i < variables.len()
            invariant
                i <= variables@.len(),
                forall|id: i32| variables@.contains(id) <==> self.mentions(id),
                forall|k: int| 0 <= k < i ==> 0 <= #[trigger] variables@[k] < count,
            decreases variables@.len() - i,
        {
            if variables[i] < 0 || variables[i] as usize >= count {
                assert(variables@.contains(variables@[i as int]));
                assert(self.mentions(variables@[i as int]));
                return false;
            }
            i += 1;
        }
        assert forall|id: i32| #[trigger] self.mentions(id) implies 0 <= id < count by {
            assert(variables@.contains(id));
        }
        true
    }

    /// Whether `evaluate` can be called with these outcomes and this table:
    /// every test of the expression has an entry that points into `results`.
    pub fn can_evaluate(&self, results: &Vec<bool>, variable_to_index: &Vec<usize>) -> (can: bool)
        ensures
            can == self.covered_by(results@, variable_to_index@),
    {
        let variables = self.variables();
        let mut i: usize = 0;
        while i < variables.len()
            invariant
                i <= variables@.len(),
                forall|id: i32| variables@.contains(id) <==> self.mentions(id),
                forall|k: int|
                    0 <= k < i ==> 0 <= #[trigger] variables@[k] < variable_to_index@.len()
                        && variable_to_index@[variables@[k] as int] < results@.len(),
            decreases variables@.len() - i,
        {
            let id = variables[i];
            if id < 0 || id as usize >= variable_to_index.len() || variable_to_index[id as usize]
                >= results.len() {
                assert(variables@.contains(variables@[i as int]));
                assert(self.mentions(id));
                return false;
            }
            i += 1;
        }
        assert forall|id: i32| #[trigger] self.mentions(id) implies 0 <= id
            < variable_to_index@.len() && variable_to_index@[id as int] < results@.len() by {
            assert(variables@.contains(id));
        }
        true
    }

    /// Whether no negation occurs anywhere in the expression.
    pub fn is_positive(&self) -> (positive: bool)
        ensures
            positive == self.positive(),
        decreases self,
    {
        let mut i: usize = 0;
        while i < self.operands.len()
            invariant
                i <= self.operands@.len(),
                forall|k: int| 0 <= k < i ==> (#[trigger] self.operands@[k]).positive(),
            decreases self.operands@.len() - i,
        {
            let positive = match &self.operands[i] {
                Operand::Test(_) => true,
                Operand::NotTest(_) => false,
                Operand::Expression(e) => e.is_positive(),
                Operand::NotExpression(_) => false,
            };
            if !positive {
                assert(!self.operands@[i as int].positive());
                return false;
            }
            i += 1;
        }
        true
    }

    /// Evaluates the expression on the outcomes `results`, where the outcome of
    /// test `id` stands at index `variable_to_index[id]`.
    pub fn evaluate(&self, results: &Vec<bool>, variable_to_index: &Vec<usize>) -> (value: bool)
        requires
            self.covered_by(results@, variable_to_index@),
        ensures
            value == self.holds(indexed_assignment(results@, variable_to_index@)),
        decreases self, 1int,
    {
        let ghost assignment = indexed_assignment(results@, variable_to_index@);
        let mut i: usize = 0;
        match self.operator {
            Operator::Or => {
                while i < self.operands.len()
                    invariant
                        i <= self.operands@.len(),
                        self.covered_by(results@, variable_to_index@),
                        assignment == indexed_assignment(results@, variable_to_index@),
                        self.operator is Or,
                        forall|k: int| 0 <= k < i ==> !(#[trigger] self.operands@[k]).holds(assignment),
                    decreases self.operands@.len() - i,
                {
                    assert(forall|id: i32| #[trigger]
                        self.operands@[i as int].mentions(id) ==> self.mentions(id));
                    if evaluate_operand(&self.operands[i], results, variable_to_index) {
                        return true;
                    }
                    i += 1;
                }
                false
            },
            Operator::And => {
                while i < self.operands.len()
                    invariant
                        i <= self.operands@.len(),
                        self.covered_by(results@, variable_to_index@),
                        assignment == indexed_assignment(results@, variable_to_index@),
                        self.operator is And,
                        forall|k: int| 0 <= k < i ==> (#[trigger] self.operands@[k]).holds(assignment),
                    decreases self.operands@.len() - i,
                {
                    assert(forall|id: i32| #[trigger]
                        self.operands@[i as int].mentions(id) ==> self.mentions(id));
                    if !evaluate_operand(&self.operands[i], results, variable_to_index) {
                        return false;
                    }
                    i += 1;
                }
                true
            },
        }
    }
}

/// Every test that is true under `lower` is true under `upper`.
pub open spec fn below(lower: spec_fn(i32) -> bool, upper: spec_fn(i32) -> bool) -> bool {
    forall|id: i32| #[trigger] lower(id) ==> upper(id)
}

/// The expression is true under an assignment that makes no more tests true
/// than `assignment` does.
pub open spec fn holds_below(expression: Expression, assignment: spec_fn(i32) -> bool) -> bool {
    exists|lower: spec_fn(i32) -> bool|
        below(lower, assignment) && #[trigger] expression.holds(lower)
}

/// Turning tests from failed to passed never turns the expression from true to false.
pub open spec fn monotone(expression: Expression) -> bool {
    forall|lower: spec_fn(i32) -> bool, upper: spec_fn(i32) -> bool|
        below(lower, upper) && #[trigger] expression.holds(lower) ==> #[trigger] expression.holds(
            upper,
        )
}

/// The value of an operand depends only on the tests that it mentions.
pub proof fn lemma_operand_agree(
    operand: Operand,
    first: spec_fn(i32) -> bool,
    second: spec_fn(i32) -> bool,
)
    requires
        forall|id: i32| #[trigger] operand.mentions(id) ==> first(id) == second(id),
    ensures
        operand.holds(first) == operand.holds(second),
    decreases operand, 0int,
{
    match operand {
        Operand::Test(id) => {
            assert(operand.mentions(id));
        },
        Operand::NotTest(id) => {
            assert(operand.mentions(id));
        },
        Operand::Expression(e) => {
            assert(forall|id: i32| #[trigger] e.mentions(id) ==> operand.mentions(id));
            lemma_holds_agree(e, first, second);
        },
        Operand::NotExpression(e) => {
            assert(forall|id: i32| #[trigger] e.mentions(id) ==> operand.mentions(id));
            lemma_holds_agree(e, first, second);
        },
    }
}

/// The value of an expression depends only on the tests that it mentions.
pub proof fn lemma_holds_agree(
    expression: Expression,
    first: spec_fn(i32) -> bool,
    second: spec_fn(i32) -> bool,
)
    requires
        forall|id: i32| #[trigger] expression.mentions(id) ==> first(id) == second(id),
    ensures
        expression.holds(first) == expression.holds(second),
    decreases expression, 1int,
{
    assert forall|i: int| 0 <= i < expression.operands@.len() implies (
    #[trigger] expression.operands@[i]).holds(first) == expression.operands@[i].holds(second) by {
        assert(forall|id: i32| #[trigger]
            expression.operands@[i].mentions(id) ==> expression.mentions(id));
        lemma_operand_agree(expression.operands@[i], first, second);
    }
}

/// An operand without negation stays true when more tests pass.
pub proof fn lemma_positive_operand(
    operand: Operand,
    lower: spec_fn(i32) -> bool,
    upper: spec_fn(i32) -> bool,
)
    requires
        operand.positive(),
        below(lower, upper),
        operand.holds(lower),
    ensures
        operand.holds(upper),
    decreases operand, 0int,
{
    match operand {
        Operand::Test(id) => {
            assert(lower(id));
        },
        Operand::Expression(e) => {
            lemma_positive_expression(e, lower, upper);
        },
        _ => {},
    }
}

/// An expression without negation stays true when more tests pass.
pub proof fn lemma_positive_expression(
    expression: Expression,
    lower: spec_fn(i32) -> bool,
    upper: spec_fn(i32) -> bool,
)
    requires
        expression.positive(),
        below(lower, upper),
        expression.holds(lower),
    ensures
        expression.holds(upper),
    decreases expression, 1int,
{
    match expression.operator {
        Operator::And => {
            assert forall|i: int| 0 <= i < expression.operands@.len() implies (
            #[trigger] expression.operands@[i]).holds(upper) by {
                lemma_positive_operand(expression.operands@[i], lower, upper);
            }
        },
        Operator::Or => {
            let i = choose|i: int|
                0 <= i < expression.operands@.len() && (#[trigger] expression.operands@[i]).holds(
                    lower,
                );
            lemma_positive_operand(expression.operands@[i], lower, upper);
        },
    }
}

/// An expression without negation is monotone.
pub proof fn lemma_positive_is_monotone(expression: Expression)
    requires
        expression.positive(),
    ensures
        monotone(expression),
{
    assert forall|lower: spec_fn(i32) -> bool, upper: spec_fn(i32) -> bool|
        below(lower, upper) && #[trigger] expression.holds(lower) implies #[trigger] expression.holds(
        upper,
    ) by {
        lemma_positive_expression(expression, lower, upper);
    }
}

/// For a monotone expression, being true under a smaller assignment is being true.
pub proof fn lemma_monotone_holds_below(expression: Expression, assignment: spec_fn(i32) -> bool)
    requires
        monotone(expression),
    ensures
        holds_below(expression, assignment) == expression.holds(assignment),
{
    if expression.holds(assignment) {
        assert(below(assignment, assignment));
    }
}

/// `append_new` adds no duplicate, and holds what either of the two lists holds.
pub proof fn lemma_append_new(acc: Seq<i32>, ids: Seq<i32>)
    ensures
        acc.no_duplicates() ==> append_new(acc, ids).no_duplicates(),
        forall|x: i32| append_new(acc, ids).contains(x) <==> acc.contains(x) || ids.contains(x),
    decreases ids.len(),
{
    if ids.len() > 0 {
        let before = append_new(acc, ids.drop_last());
        let now = append_new(acc, ids);
        lemma_append_new(acc, ids.drop_last());
        assert forall|x: i32| now.contains(x) <==> acc.contains(x) || ids.contains(x) by {
            if now.contains(x) {
                let k = choose|k: int| 0 <= k < now.len() && now[k] == x;
                if k < before.len() {
                    assert(before[k] == x);
                    if ids.drop_last().contains(x) {
                        let m = choose|m: int| 0 <= m < ids.drop_last().len() && ids.drop_last()[m] == x;
                        assert(ids[m] == x);
                    }
                } else {
                    assert(ids[ids.len() - 1] == x);
                }
            }
            if acc.contains(x) {
                assert(before.contains(x));
                let k = choose|k: int| 0 <= k < before.len() && before[k] == x;
                assert(now[k] == x);
            }
            if ids.contains(x) {
                let m = choose|m: int| 0 <= m < ids.len() && ids[m] == x;
                if m < ids.len() - 1 {
                    assert(ids.drop_last()[m] == x);
                    assert(before.contains(x));
                    let k = choose|k: int| 0 <= k < before.len() && before[k] == x;
                    assert(now[k] == x);
                } else if before.contains(x) {
                    let k = choose|k: int| 0 <= k < before.len() && before[k] == x;
                    assert(now[k] == x);
                } else {
                    assert(now[before.len() as int] == x);
                }
            }
        }
    }
}

/// The variables of the first `count` operands are the tests that these
/// operands mention, each once.
pub proof fn lemma_operand_variables(operands: Seq<Operand>, count: nat)
    requires
        count <= operands.len(),
    ensures
        operand_variables(operands, count).no_duplicates(),
        forall|x: i32|
            operand_variables(operands, count).contains(x) <==> exists|k: int|
                0 <= k < count && (#[trigger] operands[k]).mentions(x),
    decreases operands, count,
{
    if count > 0 {
        let before = operand_variables(operands, (count - 1) as nat);
        let operand = operands[count - 1];
        lemma_operand_variables(operands, (count - 1) as nat);
        lemma_operand_variable_seq(operand);
        lemma_append_new(before, operand.variable_seq());
        assert forall|x: i32|
            operand_variables(operands, count).contains(x) <==> exists|k: int|
                0 <= k < count && (#[trigger] operands[k]).mentions(x) by {
            if before.contains(x) {
                let k = choose|k: int| 0 <= k < count - 1 && (#[trigger] operands[k]).mentions(x);
                assert(0 <= k < count && operands[k].mentions(x));
            }
            if exists|k: int| 0 <= k < count && (#[trigger] operands[k]).mentions(x) {
                let k = choose|k: int| 0 <= k < count && (#[trigger] operands[k]).mentions(x);
                if k < count - 1 {
                    assert(before.contains(x));
                }
            }
        }
    }
}

/// The variables of an operand are the tests that it mentions.
pub proof fn lemma_operand_variable_seq(operand: Operand)
    ensures
        forall|x: i32| operand.variable_seq().contains(x) <==> operand.mentions(x),
    decreases operand,
{
    match operand {
        Operand::Test(v) => {
            let only = operand.variable_seq();
            assert(only.len() == 1 && only[0] == v);
            assert forall|x: i32| only.contains(x) <==> operand.mentions(x) by {
                if only.contains(x) {
                    let k = choose|k: int| 0 <= k < only.len() && only[k] == x;
                    assert(only[0] == v);
                }
                if x == v {
                    assert(only[0] == x);
                }
            }
        },
        Operand::NotTest(v) => {
            let only = operand.variable_seq();
            assert(only.len() == 1 && only[0] == v);
            assert forall|x: i32| only.contains(x) <==> operand.mentions(x) by {
                if only.contains(x) {
                    let k = choose|k: int| 0 <= k < only.len() && only[k] == x;
                    assert(only[0] == v);
                }
                if x == v {
                    assert(only[0] == x);
                }
            }
        },
        Operand::Expression(e) => {
            lemma_variable_seq(e);
            assert forall|x: i32| operand.variable_seq().contains(x) <==> operand.mentions(x) by {
                assert(operand.variable_seq() == e.variable_seq());
                assert(operand.mentions(x) == e.mentions(x));
            }
        },
        Operand::NotExpression(e) => {
            lemma_variable_seq(e);
            assert forall|x: i32| operand.variable_seq().contains(x) <==> operand.mentions(x) by {
                assert(operand.variable_seq() == e.variable_seq());
                assert(operand.mentions(x) == e.mentions(x));
            }
        },
    }
}

/// The variables of an expression are the tests that it mentions, each once.
pub proof fn lemma_variable_seq(expression: Expression)
    ensures
        expression.variable_seq().no_duplicates(),
        forall|x: i32| expression.variable_seq().contains(x) <==> expression.mentions(x),
    decreases expression,
{
    lemma_operand_variables(expression.operands@, expression.operands@.len());
}

/// An expression that mentions no test but those of another has no more variables.
pub proof fn lemma_fewer_variables(inner: Expression, outer: Expression)
    requires
        forall|id: i32| #[trigger] inner.mentions(id) ==> outer.mentions(id),
    ensures
        inner.variable_seq().len() <= outer.variable_seq().len(),
{
    let few = inner.variable_seq();
    let many = outer.variable_seq();
    lemma_variable_seq(inner);
    lemma_variable_seq(outer);
    few.unique_seq_to_set();
    many.lemma_cardinality_of_set();
    vstd::seq_lib::seq_to_set_is_finite(many);
    assert forall|x: i32| few.to_set().contains(x) implies many.to_set().contains(x) by {
        assert(few.contains(x));
        assert(inner.mentions(x));
        assert(many.contains(x));
    }
    vstd::set_lib::lemma_len_subset(few.to_set(), many.to_set());
}

/// Whether `id` is among `ids`.
pub fn contains_id(ids: &Vec<i32>, id: i32) -> (found: bool)
    ensures
        found == ids@.contains(id),
{
    let mut i: usize = 0;
    while i < ids.len()
        invariant
            i <= ids@.len(),
            forall|k: int| 0 <= k < i ==> ids@[k] != id,
        decreases ids@.len() - i,
    {
        if ids[i] == id {
            return true;
        }
        i += 1;
    }
    false
}

/// Appends `id` to `vars` unless it is already there.
pub fn push_new(vars: &mut Vec<i32>, id: i32)
    ensures
        final(vars)@ == append_new(old(vars)@, seq![id]),
        final(vars)@ == if old(vars)@.contains(id) {
            old(vars)@
        } else {
            old(vars)@.push(id)
        },
        old(vars)@.no_duplicates() ==> final(vars)@.no_duplicates(),
        forall|x: i32| final(vars)@.contains(x) <==> old(vars)@.contains(x) || x == id,
{
    let ghost before = vars@;
    proof {
        reveal_with_fuel(append_new, 2);
        assert(seq![id].drop_last() =~= Seq::<i32>::empty());
        assert(seq![id].last() == id);
        assert(append_new(before, seq![id].drop_last()) == before);
    }
    if !contains_id(vars, id) {
        vars.push(id);
        assert(vars@.last() == id);
        assert(forall|x: i32| before.contains(x) ==> vars@.contains(x)) by {
            assert forall|x: i32| before.contains(x) implies vars@.contains(x) by {
                let k = choose|k: int| 0 <= k < before.len() && before[k] == x;
                assert(vars@[k] == x);
            }
        }
        assert(vars@[before.len() as int] == id);
    }
}

/// Appends to `vars`, in order, each of `ids` that is not already there.
pub fn extend_new(vars: &mut Vec<i32>, ids: &Vec<i32>)
    ensures
        final(vars)@ == append_new(old(vars)@, ids@),
        old(vars)@.no_duplicates() ==> final(vars)@.no_duplicates(),
        forall|x: i32| final(vars)@.contains(x) <==> old(vars)@.contains(x) || ids@.contains(x),
{
    let mut i: usize = 0;
    assert(ids@.take(0) =~= Seq::<i32>::empty());
    while i < ids.len()
        invariant
            i <= ids@.len(),
            vars@ == append_new(old(vars)@, ids@.take(i as int)),
            old(vars)@.no_duplicates() ==> vars@.no_duplicates(),
            forall|x: i32|
                vars@.contains(x) <==> old(vars)@.contains(x) || exists|k: int|
                    0 <= k < i && ids@[k] == x,
        decreases ids@.len() - i,
    {
        assert(ids@.take(i + 1).drop_last() =~= ids@.take(i as int));
        assert(ids@.take(i + 1).last() == ids@[i as int]);
        push_new(vars, ids[i]);
        i += 1;
    }
    assert(ids@.take(ids@.len() as int) =~= ids@);
}

/// Evaluates one operand on the outcomes `results`, where the outcome of test
/// `id` stands at index `variable_to_index[id]`.
pub fn evaluate_operand(operand: &Operand, results: &Vec<bool>, variable_to_index: &Vec<usize>) -> (value: bool)
    requires
        forall|id: i32| #[trigger]
            operand.mentions(id) ==> 0 <= id < variable_to_index@.len() && variable_to_index@[id as int]
                < results@.len(),
    ensures
        value == operand.holds(indexed_assignment(results@, variable_to_index@)),
    decreases operand, 0int,
{
    match operand {
        Operand::Test(id) => {
            assert(operand.mentions(*id));
            results[variable_to_index[*id as usize]]
        },
        Operand::NotTest(id) => {
            assert(operand.mentions(*id));
            !results[variable_to_index[*id as usize]]
        },
        Operand::Expression(e) => {
            assert(forall|id: i32| #[trigger] e.mentions(id) ==> operand.mentions(id));
            e.evaluate(results, variable_to_index)
        },
        Operand::NotExpression(e) => {
            assert(forall|id: i32| #[trigger] e.mentions(id) ==> operand.mentions(id));
            !e.evaluate(results, variable_to_index)
        },
    }
}

} // verus!
