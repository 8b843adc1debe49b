use rustc_serialize::json::Json;
use std::collections::BTreeMap;
use test_dependencies::expression::{Expression, Operand, Operator};
use test_dependencies::json::{expression_json, operator_name};

fn object(operator: &str, inputs: Vec<Json>) -> Json {
    let mut map = BTreeMap::new();
    map.insert("operator".to_owned(), Json::String(operator.to_owned()));
    map.insert("inputs".to_owned(), Json::Array(inputs));
    Json::Object(map)
}

fn text(value: &str) -> Json {
    Json::String(value.to_owned())
}

#[test]
fn should_write_tests_by_their_names() {
    let lookup = vec!["first".to_owned(), "second".to_owned(), "third".to_owned()];
    let expression = Expression {
        operator: Operator::And,
        operands: vec![Operand::Test(2), Operand::Test(0)],
    };
    let json = expression_json(&expression, &lookup);
    assert_eq!(json, object("And", vec![text("third"), text("first")]));
    assert_eq!(json.to_string(), "{\"inputs\":[\"third\",\"first\"],\"operator\":\"And\"}");
}

#[test]
fn should_write_nested_expressions_as_objects() {
    let lookup = vec!["a".to_owned(), "b".to_owned(), "c".to_owned()];
    let expression = Expression {
        operator: Operator::Or,
        operands: vec![
            Operand::Expression(Expression {
                operator: Operator::And,
                operands: vec![Operand::Test(0), Operand::Test(1)],
            }),
            Operand::Test(2),
            Operand::Expression(Expression { operator: Operator::And, operands: vec![] }),
        ],
    };
    assert_eq!(
        expression_json(&expression, &lookup),
        object(
            "Or",
            vec![object("And", vec![text("a"), text("b")]), text("c"), object("And", vec![])]
        )
    );
}

#[test]
fn should_write_an_empty_disjunction() {
    let expression = Expression { operator: Operator::Or, operands: vec![] };
    assert_eq!(expression_json(&expression, &vec![]), object("Or", vec![]));
}

#[test]
fn should_name_the_operators() {
    assert_eq!(operator_name(&Operator::Or), "Or");
    assert_eq!(operator_name(&Operator::And), "And");
}
