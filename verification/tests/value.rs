use df_utils::datetime::{Date, DateTime};
use df_utils::parser::{Json5Parser, Parser};
use df_utils::{Float, Member, Value};

fn member(key: &str, value: Value) -> Member {
    Member { key: key.to_string(), value }
}

#[test]
fn well_formed_values() {
    assert!(Value::Null.well_formed());
    assert!(Value::Int(i128::MIN).well_formed());
    assert!(Value::Float(Float::Nan).well_formed());
    assert!(Value::Float(Float::Finite("-1.5e3".to_string())).well_formed());
    assert!(Value::String("\u{0}".to_string()).well_formed());
    let date = DateTime::new(Some(Date::new(2000, 1, 1).unwrap()), None, None).unwrap();
    assert!(Value::DateTime(date).well_formed());
    assert!(Value::Array(vec![]).well_formed());
    assert!(Value::Object(vec![]).well_formed());
    let nested = Value::Object(vec![
        member("a", Value::Array(vec![Value::Object(vec![member("a", Value::Null)])])),
        member("b", Value::Object(vec![member("a", Value::Int(1)), member("b", Value::Int(2))])),
        member("", Value::Float(Float::Finite("0".to_string()))),
    ]);
    assert!(nested.well_formed());
}

#[test]
fn a_key_that_stands_twice_is_not_well_formed() {
    let twice = Value::Object(vec![
        member("a", Value::Int(1)),
        member("b", Value::Int(2)),
        member("a", Value::Int(3)),
    ]);
    assert!(!twice.well_formed());
    assert!(!Value::Array(vec![Value::Null, twice]).well_formed());
    let inner = Value::Object(vec![member(
        "k",
        Value::Object(vec![member("x", Value::Null), member("x", Value::Null)]),
    )]);
    assert!(!inner.well_formed());
}

#[test]
fn a_float_that_is_no_number_is_not_well_formed() {
    assert!(!Value::Float(Float::Finite("one".to_string())).well_formed());
    assert!(!Value::Float(Float::Finite(String::new())).well_formed());
    assert!(!Value::Array(vec![Value::Float(Float::Finite("1.".to_string()))]).well_formed());
    assert!(!Value::Object(vec![member("a", Value::Float(Float::Finite("+1".to_string())))])
        .well_formed());
}

#[test]
fn what_a_parser_reads_is_well_formed() {
    let value = Json5Parser
        .parse("{a: [1, .5, -2e3, +7.25, 'x'], b: {a: 1, a: 2}, a: NaN, c: -Infinity}")
        .unwrap();
    assert!(value.well_formed());
    assert_eq!(
        value,
        Value::Object(vec![
            member("a", Value::Float(Float::Nan)),
            member("b", Value::Object(vec![member("a", Value::Int(2))])),
            member("c", Value::Float(Float::NegInfinity)),
        ])
    );
}

#[test]
fn a_clone_of_a_member() {
    let m = member("k", Value::Array(vec![Value::Int(1)]));
    assert_eq!(m.clone(), m);
}
