//! The JSON form of an expression: an object that holds the operator under
//! `operator` and, under `inputs`, the list of its operands; a test is written
//! as its name, a nested expression as an object of the same shape.

use crate::expression::{Expression, Operand, Operator};
use rustc_serialize::json::Json;
use std::collections::BTreeMap;
use vstd::prelude::*;

verus! {

/// The JSON values of the `rustc_serialize` crate.
#[verifier::external_type_specification]
#[verifier::external_body]
pub struct ExJson(Json);

/// What a JSON value holds, as far as expressions need it.
pub enum JsonModel {
    /// A string.
    Text(Seq<char>),
    /// An array, in order.
    List(Seq<JsonModel>),
    /// An object, by key.
    Record(Map<Seq<char>, JsonModel>),
    /// A number, a truth value or null.
    Other,
}

/// What the JSON value `json` holds.
pub uninterp spec fn json_model(json: Json) -> JsonModel;

/// Makes the JSON string `text` with `Json::String`.
#[verifier::external_body]
fn json_string(text: &str) -> (json: Json)
    ensures
        json_model(json) == JsonModel::Text(text@),
{
    Json::String(text.to_owned())
}

/// Makes the JSON array of `items`, in their order, with `Json::Array`.
#[verifier::external_body]
fn json_array(items: Vec<Json>) -> (json: Json)
    ensures
        json_model(json) == JsonModel::List(Seq::new(items@.len(), |i: int| json_model(items@[i]))),
{
    Json::Array(items)
}

/// Makes, with `Json::Object`, the JSON object that holds `first` under
/// `first_key` and `second` under `second_key`; were the keys equal, it would
/// hold `second` alone.
#[verifier::external_body]
fn json_object(first_key: &str, first: Json, second_key: &str, second: Json) -> (json: Json)
    ensures
        json_model(json) == JsonModel::Record(
            Map::<Seq<char>, JsonModel>::empty().insert(first_key@, json_model(first)).insert(
                second_key@,
                json_model(second),
            ),
        ),
{
    let mut map = BTreeMap::new();
    map.insert(first_key.to_owned(), first);
    map.insert(second_key.to_owned(), second);
    Json::Object(map)
}

/// The name under which an operator is written.
pub open spec fn operator_text(operator: Operator) -> Seq<char> {
    match operator {
        Operator::Or => "Or"@,
        Operator::And => "And"@,
    }
}

/// The names of the tests, each as a sequence of characters.
pub open spec fn names(lookup: Seq<String>) -> Seq<Seq<char>> {
    Seq::new(lookup.len(), |i: int| lookup[i]@)
}

/// The JSON forms of the first `count` operands, in order.
pub open spec fn operand_models(operands: Seq<Operand>, lookup: Seq<Seq<char>>, count: nat) -> Seq<
    JsonModel,
>
    decreases operands, count,
{
    if count == 0 || count > operands.len() {
        Seq::empty()
    } else {
        operand_models(operands, lookup, (count - 1) as nat).push(
            operand_model(operands[count - 1], lookup),
        )
    }
}

/// The JSON form of an operand without negation: the name of the test, or
/// the form of the nested expression.
pub open spec fn operand_model(operand: Operand, lookup: Seq<Seq<char>>) -> JsonModel
    decreases operand,
{
    match operand {
        Operand::Test(id) => JsonModel::Text(lookup[id as int]),
        Operand::Expression(e) => expression_model(e, lookup),
        _ => JsonModel::Other,
    }
}

/// The JSON form of an expression without negation.
pub open spec fn expression_model(expression: Expression, lookup: Seq<Seq<char>>) -> JsonModel
    decreases expression,
{
    JsonModel::Record(
        Map::<Seq<char>, JsonModel>::empty().insert(
            "operator"@,
            JsonModel::Text(operator_text(expression.operator)),
        ).insert(
            "inputs"@,
            JsonModel::List(
                operand_models(expression.operands@, lookup, expression.operands@.len()),
            ),
        ),
    )
}

/// The name under which an operator is written: `Or` or `And`.
pub fn operator_name(operator: &Operator) -> (name: &'static str)
    ensures
        name@ == operator_text(*operator),
{
    match operator {
        Operator::Or => "Or",
        Operator::And => "And",
    }
}

/// Writes an expression without negation as a JSON value, each test under
/// the name that `lookup` gives for its identifier.
pub fn expression_json(expression: &Expression, lookup: &Vec<String>) -> (json: Json)
    requires
        expression.positive(),
        expression.within(lookup@.len() as int),
    ensures
        json_model(json) == expression_model(*expression, names(lookup@)),
    decreases expression,
{
    let operator = json_string(operator_name(&expression.operator));
    let mut operands = Vec::<Json>::new();
    let mut i: usize = 0;
    while i < expression.operands.len()
        invariant
            i <= expression.operands@.len(),
            expression.positive(),
            expression.within(lookup@.len() as int),
            operands@.len() == i,
            Seq::new(operands@.len(), |k: int| json_model(operands@[k])) == operand_models(
                expression.operands@,
                names(lookup@),
                i as nat,
            ),
        decreases expression.operands@.len() - i,
    {
        let ghost before = Seq::new(operands@.len(), |k: int| json_model(operands@[k]));
        assert(expression.operands@[i as int].positive());
        assert(forall|id: i32| #[trigger]
            expression.operands@[i as int].mentions(id) ==> expression.mentions(id));
        let input = match &expression.operands[i] {
            Operand::Test(id) => {
                assert(expression.operands@[i as int].mentions(*id));
                json_string(lookup[*id as usize].as_str())
            },
            Operand::Expression(e) => {
                assert(forall|id: i32| #[trigger]
                    e.mentions(id) ==> expression.operands@[i as int].mentions(id));
                expression_json(e, lookup)
            },
            _ => {
                assert(false);
                json_string("")
            },
        };
        operands.push(input);
        assert(Seq::new(operands@.len(), |k: int| json_model(operands@[k])) =~= before.push(
            operand_model(expression.operands@[i as int], names(lookup@)),
        ));
        i += 1;
    }
    json_object("operator", operator, "inputs", json_array(operands))
}

} // verus!
